use vstd::prelude::*;

verus! {

/// Whitespace: the characters with the Unicode White_Space property, the
/// ones `char::is_whitespace` accepts. A file name never keeps them.
pub open spec fn is_blank(c: char) -> bool {
    ('\u{9}' <= c && c <= '\u{d}') || c == ' ' || c == '\u{85}' || c == '\u{a0}' || c
        == '\u{1680}' || ('\u{2000}' <= c && c <= '\u{200a}') || c == '\u{2028}' || c
        == '\u{2029}' || c == '\u{202f}' || c == '\u{205f}' || c == '\u{3000}'
}

/// First position at or after `i` that holds `c`, or the length of `s`.
pub open spec fn next_index(s: Seq<char>, c: char, i: int) -> int
    decreases s.len() - i,
{
    if i < 0 || i >= s.len() {
        s.len() as int
    } else if s[i] == c {
        i
    } else {
        next_index(s, c, i + 1)
    }
}

/// Moves `i` forward over blanks, stopping at `end`.
pub open spec fn skip_blanks(s: Seq<char>, i: int, end: int) -> int
    decreases end - i,
{
    if i < end && is_blank(s[i]) {
        skip_blanks(s, i + 1, end)
    } else {
        i
    }
}

/// Moves `j` backward over blanks, stopping at `start`.
pub open spec fn back_blanks(s: Seq<char>, start: int, j: int) -> int
    decreases j - start,
{
    if j > start && is_blank(s[j - 1]) {
        back_blanks(s, start, j - 1)
    } else {
        j
    }
}

/// Bounds of the part of a suggested name that becomes the file name. With
/// a comma, the second comma-separated field without the blanks around it (the
/// first field is a display label); without one, the whole text.
pub open spec fn name_bounds(s: Seq<char>) -> (int, int) {
    let c = next_index(s, ',', 0);
    if c == s.len() {
        (0, s.len() as int)
    } else {
        let b = next_index(s, ',', c + 1);
        let lo = skip_blanks(s, c + 1, b);
        (lo, back_blanks(s, lo, b))
    }
}

/// Every blank turned into an underscore.
pub open spec fn underscored(t: Seq<char>) -> Seq<char> {
    t.map_values(|c: char| if is_blank(c) { '_' } else { c })
}

/// The file name derived from a suggested name: its name part with every
/// blank turned into an underscore; none when that part is empty.
pub open spec fn filename_of(s: Seq<char>) -> Option<Seq<char>> {
    let (lo, hi) = name_bounds(s);
    if lo >= hi {
        None
    } else {
        Some(underscored(s.subrange(lo, hi)))
    }
}

/// `next_index` stays within the text, and finds `c` when it stops short of
/// the end.
pub proof fn lemma_next_index_bounds(s: Seq<char>, c: char, i: int)
    requires
        0 <= i <= s.len(),
    ensures
        i <= next_index(s, c, i) <= s.len(),
        next_index(s, c, i) < s.len() ==> s[next_index(s, c, i)] == c,
    decreases s.len() - i,
{
    if i < s.len() && s[i] != c {
        lemma_next_index_bounds(s, c, i + 1);
    }
}

fn find_char(s: &str, n: usize, c: char, from: usize) -> (r: usize)
    requires
        n == s@.len(),
        from <= n,
    ensures
        r == next_index(s@, c, from as int),
        from <= r <= n,
{
    let mut i = from;
    while i < n
        invariant
            n == s@.len(),
            from <= i <= n,
            next_index(s@, c, i as int) == next_index(s@, c, from as int),
        decreases n - i,
    {
        if s.get_char(i) == c {
            return i;
        }
        i = i + 1;
    }
    i
}

fn is_blank_char(c: char) -> (r: bool)
    ensures
        r == is_blank(c),
{
    ('\u{9}' <= c && c <= '\u{d}') || c == ' ' || c == '\u{85}' || c == '\u{a0}' || c
        == '\u{1680}' || ('\u{2000}' <= c && c <= '\u{200a}') || c == '\u{2028}' || c
        == '\u{2029}' || c == '\u{202f}' || c == '\u{205f}' || c == '\u{3000}'
}

/// Derives the file name under which a candidate is saved from the name that
/// the listing suggests for it (`"Label, real file.mp3"` gives
/// `real_file.mp3`). `None` when no file name can be derived.
pub fn derive_filename(suggested: &str) -> (r: Option<String>)
    ensures
        r matches Some(f) ==> filename_of(suggested@) == Some(f@),
        r is None ==> filename_of(suggested@) is None,
{
    let s = suggested;
    let n = s.unicode_len();
    let c = find_char(s, n, ',', 0);
    proof {
        lemma_next_index_bounds(s@, ',', 0);
    }
    let (lo, hi) = if c == n {
        (0, n)
    } else {
        let b = find_char(s, n, ',', c + 1);
        proof {
            lemma_next_index_bounds(s@, ',', c + 1);
        }
        let a = c + 1;
        let mut lo = a;
        while lo < b && is_blank_char(s.get_char(lo))
            invariant
                n == s@.len(),
                a <= lo <= b <= n,
                skip_blanks(s@, lo as int, b as int) == skip_blanks(s@, a as int, b as int),
            decreases b - lo,
        {
            lo = lo + 1;
        }
        let mut hi = b;
        while hi > lo && is_blank_char(s.get_char(hi - 1))
            invariant
                n == s@.len(),
                lo <= hi <= b <= n,
                back_blanks(s@, lo as int, hi as int) == back_blanks(s@, lo as int, b as int),
            decreases hi - lo,
        {
            hi = hi - 1;
        }
        (lo, hi)
    };
    assert(name_bounds(s@) == (lo as int, hi as int));
    if lo >= hi {
        return None;
    }
    let mut out = String::new();
    let mut k = lo;
    while k < hi
        invariant
            n == s@.len(),
            lo <= k <= hi <= n,
            out@ == underscored(s@.subrange(lo as int, k as int)),
        decreases hi - k,
    {
        let ch = s.get_char(k);
        if is_blank_char(ch) {
            out.append("_");
        } else {
            out.append(s.substring_char(k, k + 1));
        }
        proof {
            reveal_strlit("_");
            assert(s@.subrange(lo as int, k + 1) =~= s@.subrange(lo as int, k as int).push(ch));
            assert(underscored(s@.subrange(lo as int, k + 1)) =~= underscored(
                s@.subrange(lo as int, k as int),
            ).push(if is_blank(ch) { '_' } else { ch }));
            assert(out@ =~= underscored(s@.subrange(lo as int, k + 1)));
        }
        k = k + 1;
    }
    Some(out)
}

/// A non-empty suggested name without a comma gives the whole name, every
/// blank turned into an underscore.
pub proof fn lemma_whole_name_without_separator(s: Seq<char>)
    requires
        !s.contains(','),
        s.len() > 0,
    ensures
        filename_of(s) == Some(underscored(s)),
{
    lemma_next_index_none(s, ',', 0);
    assert(s.subrange(0, s.len() as int) =~= s);
}

proof fn lemma_next_index_none(s: Seq<char>, c: char, i: int)
    requires
        0 <= i <= s.len(),
        !s.contains(c),
    ensures
        next_index(s, c, i) == s.len(),
    decreases s.len() - i,
{
    if i < s.len() {
        assert(s[i] != c) by {
            if s[i] == c {
                assert(s.contains(c));
            }
        }
        lemma_next_index_none(s, c, i + 1);
    }
}

/// A derived file name is never empty and holds no whitespace.
pub proof fn lemma_filename_has_no_blank(s: Seq<char>)
    ensures
        filename_of(s) matches Some(f) ==> f.len() > 0 && forall|k: int|
            0 <= k < f.len() ==> !is_blank(#[trigger] f[k]),
{
    lemma_next_index_bounds(s, ',', 0);
    let c = next_index(s, ',', 0);
    if c < s.len() {
        lemma_next_index_bounds(s, ',', c + 1);
        let b = next_index(s, ',', c + 1);
        lemma_skip_blanks_bounds(s, c + 1, b);
        lemma_back_blanks_bounds(s, skip_blanks(s, c + 1, b), b);
    }
    let (lo, hi) = name_bounds(s);
    assert(0 <= lo && hi <= s.len());
    if lo < hi {
        let t = s.subrange(lo, hi);
        let f = underscored(t);
        assert(f.len() == hi - lo);
        assert forall|k: int| 0 <= k < f.len() implies !is_blank(#[trigger] f[k]) by {
            assert(f[k] == if is_blank(t[k]) { '_' } else { t[k] });
        }
    }
}

proof fn lemma_skip_blanks_bounds(s: Seq<char>, i: int, end: int)
    requires
        i <= end,
    ensures
        i <= skip_blanks(s, i, end) <= end,
    decreases end - i,
{
    if i < end && is_blank(s[i]) {
        lemma_skip_blanks_bounds(s, i + 1, end);
    }
}

proof fn lemma_back_blanks_bounds(s: Seq<char>, start: int, j: int)
    requires
        start <= j,
    ensures
        start <= back_blanks(s, start, j) <= j,
    decreases j - start,
{
    if j > start && is_blank(s[j - 1]) {
        lemma_back_blanks_bounds(s, start, j - 1);
    }
}

} // verus!
