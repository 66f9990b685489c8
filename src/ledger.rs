use vstd::prelude::*;

use crate::naming::{lemma_next_index_bounds, next_index};
use crate::text::same_text;

verus! {

/// The lines of a text: the pieces between line feeds, the last one possibly
/// empty.
pub open spec fn split_lines(s: Seq<char>) -> Seq<Seq<char>>
    decreases s.len(),
{
    if s.len() == 0 {
        seq![Seq::empty()]
    } else {
        let p = split_lines(s.drop_last());
        if s.last() == '\n' {
            p.push(Seq::empty())
        } else {
            p.update(p.len() - 1, p.last().push(s.last()))
        }
    }
}

pub open spec fn is_digit(c: char) -> bool {
    '0' <= c && c <= '9'
}

/// A reference that a ledger line can hold: not empty, on one line.
pub open spec fn valid_reference(r: Seq<char>) -> bool {
    r.len() > 0 && !r.contains('\n')
}

/// A stamp: a non-empty run of decimal digits.
pub open spec fn is_stamp(s: Seq<char>) -> bool {
    s.len() > 0 && forall|k: int| 0 <= k < s.len() ==> is_digit(#[trigger] s[k])
}

/// `line` is a stamp, a space, then `reference`.
pub open spec fn is_entry_for(line: Seq<char>, reference: Seq<char>) -> bool {
    let n = line.len() - reference.len() - 1;
    line.len() >= reference.len() + 2 && is_stamp(line.take(n)) && line == line.take(n) + seq![' ']
        + reference
}

/// The reference recorded by one ledger line `<stamp> <reference>`, where the
/// stamp is a non-empty run of decimal digits. Other lines (the header) record
/// nothing.
pub open spec fn parse_entry(line: Seq<char>) -> Option<Seq<char>> {
    let sp = next_index(line, ' ', 0);
    if sp == 0 || sp >= line.len() || sp + 1 == line.len() {
        None
    } else if exists|k: int| 0 <= k < sp && !is_digit(#[trigger] line[k]) {
        None
    } else {
        Some(line.subrange(sp + 1, line.len() as int))
    }
}

/// The references recorded by a sequence of lines.
pub open spec fn entries_of(lines: Seq<Seq<char>>) -> Set<Seq<char>> {
    Set::new(
        |r: Seq<char>| exists|j: int| 0 <= j < lines.len() && parse_entry(#[trigger] lines[j]) == Some(r),
    )
}

/// The references recorded in a ledger text.
pub open spec fn ledger_refs(text: Seq<char>) -> Set<Seq<char>> {
    entries_of(split_lines(text))
}

/// The set of references already fetched, with exact matching on whole
/// references.
pub struct Ledger {
    keys: Vec<String>,
}

impl View for Ledger {
    type V = Set<Seq<char>>;

    closed spec fn view(&self) -> Set<Seq<char>> {
        Set::new(|r: Seq<char>| exists|i: int| 0 <= i < self.keys@.len() && #[trigger] self.keys@[i]@ == r)
    }
}

proof fn lemma_split_lines_nonempty(s: Seq<char>)
    ensures
        split_lines(s).len() >= 1,
    decreases s.len(),
{
    if s.len() > 0 {
        lemma_split_lines_nonempty(s.drop_last());
    }
}

proof fn lemma_entries_push(lines: Seq<Seq<char>>, line: Seq<char>)
    ensures
        entries_of(lines.push(line)) == (match parse_entry(line) {
            Some(r) => entries_of(lines).insert(r),
            None => entries_of(lines),
        }),
{
    let a = entries_of(lines.push(line));
    let b = match parse_entry(line) {
        Some(r) => entries_of(lines).insert(r),
        None => entries_of(lines),
    };
    assert forall|r: Seq<char>| a.contains(r) implies b.contains(r) by {
        let j = choose|j: int| 0 <= j < lines.push(line).len() && parse_entry(#[trigger] lines.push(line)[j]) == Some(r);
        if j < lines.len() {
            assert(lines[j] == lines.push(line)[j]);
        }
    }
    assert forall|r: Seq<char>| b.contains(r) implies a.contains(r) by {
        if parse_entry(line) == Some(r) {
            assert(lines.push(line)[lines.len() as int] == line);
        } else {
            let j = choose|j: int| 0 <= j < lines.len() && parse_entry(#[trigger] lines[j]) == Some(r);
            assert(lines.push(line)[j] == lines[j]);
        }
    }
    assert(a =~= b);
}

fn is_digit_char(c: char) -> (r: bool)
    ensures
        r == is_digit(c),
{
    '0' <= c && c <= '9'
}

/// The reference that one ledger line records, if any.
pub fn parse_entry_line(line: &str) -> (r: Option<String>)
    ensures
        r matches Some(x) ==> parse_entry(line@) == Some(x@),
        r is None ==> parse_entry(line@) is None,
{
    let n = line.unicode_len();
    let mut sp: usize = 0;
    while sp < n && line.get_char(sp) != ' '
        invariant
            n == line@.len(),
            sp <= n,
            next_index(line@, ' ', sp as int) == next_index(line@, ' ', 0),
            forall|k: int| 0 <= k < sp ==> line@[k] != ' ',
        decreases n - sp,
    {
        sp = sp + 1;
    }
    assert(next_index(line@, ' ', sp as int) == sp);
    if sp == 0 || sp >= n || sp + 1 == n {
        return None;
    }
    let mut k: usize = 0;
    while k < sp
        invariant
            n == line@.len(),
            sp < n,
            k <= sp,
            next_index(line@, ' ', 0) == sp,
            forall|j: int| 0 <= j < k ==> is_digit(line@[j]),
        decreases sp - k,
    {
        if !is_digit_char(line.get_char(k)) {
            assert(!is_digit(line@[k as int]));
            return None;
        }
        k = k + 1;
    }
    let rest = line.substring_char(sp + 1, n);
    Some(String::from_str(rest))
}

/// A ledger line `<stamp> <reference>`, or `None` when the stamp is not a
/// non-empty run of digits or the reference cannot be held on one line.
pub fn entry_line(stamp: &str, reference: &str) -> (r: Option<String>)
    ensures
        r is Some <==> (stamp@.len() > 0 && (forall|k: int| 0 <= k < stamp@.len() ==> is_digit(
            #[trigger] stamp@[k],
        )) && valid_reference(reference@)),
        r matches Some(l) ==> l@ == stamp@ + seq![' '] + reference@,
        r matches Some(l) ==> parse_entry(l@) == Some(reference@),
{
    let n = stamp.unicode_len();
    if n == 0 {
        return None;
    }
    let mut k: usize = 0;
    while k < n
        invariant
            n == stamp@.len(),
            k <= n,
            forall|j: int| 0 <= j < k ==> is_digit(stamp@[j]),
        decreases n - k,
    {
        if !is_digit_char(stamp.get_char(k)) {
            assert(!is_digit(stamp@[k as int]));
            return None;
        }
        k = k + 1;
    }
    let m = reference.unicode_len();
    if m == 0 {
        return None;
    }
    let mut i: usize = 0;
    while i < m
        invariant
            m == reference@.len(),
            i <= m,
            forall|j: int| 0 <= j < i ==> reference@[j] != '\n',
        decreases m - i,
    {
        if reference.get_char(i) == '\n' {
            assert(reference@[i as int] == '\n');
            return None;
        }
        i = i + 1;
    }
    let mut out = String::from_str(stamp);
    out.append(" ");
    out.append(reference);
    proof {
        reveal_strlit(" ");
        let l = stamp@ + seq![' '] + reference@;
        assert(out@ =~= l);
        assert(!reference@.contains('\n')) by {
            if reference@.contains('\n') {
                let j = choose|j: int| 0 <= j < reference@.len() && reference@[j] == '\n';
                assert(reference@[j] != '\n');
            }
        }
        assert(valid_reference(reference@));
        lemma_entry_parses(stamp@, reference@);
    }
    Some(out)
}

proof fn lemma_find_space_after_digits(stamp: Seq<char>, reference: Seq<char>, i: int)
    requires
        0 <= i <= stamp.len(),
        forall|k: int| 0 <= k < stamp.len() ==> is_digit(#[trigger] stamp[k]),
    ensures
        next_index(stamp + seq![' '] + reference, ' ', i) == stamp.len(),
    decreases stamp.len() - i,
{
    let l = stamp + seq![' '] + reference;
    if i < stamp.len() {
        assert(l[i] == stamp[i]);
        assert(is_digit(stamp[i]));
        lemma_find_space_after_digits(stamp, reference, i + 1);
    } else {
        assert(l[i] == ' ');
    }
}


proof fn lemma_entry_parses(stamp: Seq<char>, reference: Seq<char>)
    requires
        stamp.len() > 0,
        forall|k: int| 0 <= k < stamp.len() ==> is_digit(#[trigger] stamp[k]),
        reference.len() > 0,
    ensures
        parse_entry(stamp + seq![' '] + reference) == Some(reference),
{
    let l = stamp + seq![' '] + reference;
    let n = stamp.len() as int;
    lemma_find_space_after_digits(stamp, reference, 0);
    assert(l.subrange(n + 1, l.len() as int) =~= reference);
    assert forall|j: int| 0 <= j < n implies is_digit(#[trigger] l[j]) by {
        assert(l[j] == stamp[j]);
    }
}

proof fn lemma_split_concat(a: Seq<char>, b: Seq<char>)
    requires
        a.len() == 0 || a.last() == '\n',
    ensures
        split_lines(a + b) == split_lines(a).drop_last() + split_lines(b),
    decreases b.len(),
{
    lemma_split_lines_nonempty(a);
    if b.len() == 0 {
        assert(a + b =~= a);
        if a.len() == 0 {
            assert(split_lines(a).drop_last() + split_lines(b) =~= split_lines(a));
        } else {
            assert(split_lines(a) == split_lines(a.drop_last()).push(Seq::empty()));
            assert(split_lines(a).drop_last() + split_lines(b) =~= split_lines(a));
        }
    } else {
        let b1 = b.drop_last();
        let c = b.last();
        lemma_split_concat(a, b1);
        lemma_split_lines_nonempty(b1);
        assert((a + b).drop_last() =~= a + b1);
        assert((a + b).last() == c);
        let d = split_lines(a).drop_last();
        let t = split_lines(b1);
        if c == '\n' {
            assert(split_lines(a + b) == (d + t).push(Seq::empty()));
            assert((d + t).push(Seq::empty()) =~= d + t.push(Seq::empty()));
        } else {
            let u = d + t;
            assert(split_lines(a + b) == u.update(u.len() - 1, u.last().push(c)));
            assert(u.update(u.len() - 1, u.last().push(c)) =~= d + t.update(
                t.len() - 1,
                t.last().push(c),
            ));
        }
    }
}

proof fn lemma_split_single_line(s: Seq<char>)
    requires
        !s.contains('\n'),
    ensures
        split_lines(s) == seq![s],
    decreases s.len(),
{
    if s.len() == 0 {
        assert(s =~= Seq::<char>::empty());
        assert(split_lines(s) =~= seq![s]);
    } else {
        let s1 = s.drop_last();
        assert(!s1.contains('\n')) by {
            if s1.contains('\n') {
                let j = choose|j: int| 0 <= j < s1.len() && s1[j] == '\n';
                assert(s[j] == '\n');
            }
        }
        assert(s.last() != '\n') by {
            assert(s[s.len() - 1] == s.last());
        }
        lemma_split_single_line(s1);
        assert(s1.push(s.last()) =~= s);
        assert(seq![s1].update(0, s1.push(s.last())) =~= seq![s]);
    }
}

proof fn lemma_entries_concat(x: Seq<Seq<char>>, y: Seq<Seq<char>>)
    ensures
        entries_of(x + y) == entries_of(x).union(entries_of(y)),
{
    let xy = x + y;
    assert forall|r: Seq<char>| entries_of(xy).contains(r) implies entries_of(x).union(
        entries_of(y),
    ).contains(r) by {
        let j = choose|j: int| 0 <= j < xy.len() && parse_entry(#[trigger] xy[j]) == Some(r);
        if j < x.len() {
            assert(xy[j] == x[j]);
        } else {
            assert(xy[j] == y[j - x.len()]);
        }
    }
    assert forall|r: Seq<char>| entries_of(x).union(entries_of(y)).contains(r) implies entries_of(
        xy,
    ).contains(r) by {
        if entries_of(x).contains(r) {
            let j = choose|j: int| 0 <= j < x.len() && parse_entry(#[trigger] x[j]) == Some(r);
            assert(xy[j] == x[j]);
        } else {
            let j = choose|j: int| 0 <= j < y.len() && parse_entry(#[trigger] y[j]) == Some(r);
            assert(xy[j + x.len()] == y[j]);
        }
    }
    assert(entries_of(xy) =~= entries_of(x).union(entries_of(y)));
}

proof fn lemma_entry_line_single(stamp: Seq<char>, reference: Seq<char>)
    requires
        forall|k: int| 0 <= k < stamp.len() ==> is_digit(#[trigger] stamp[k]),
        valid_reference(reference),
    ensures
        !(stamp + seq![' '] + reference).contains('\n'),
{
    let line = stamp + seq![' '] + reference;
    if line.contains('\n') {
        let j = choose|j: int| 0 <= j < line.len() && line[j] == '\n';
        if j < stamp.len() {
            assert(line[j] == stamp[j]);
            assert(is_digit(stamp[j]));
        } else if j > stamp.len() {
            assert(line[j] == reference[j - stamp.len() - 1]);
            assert(reference.contains('\n'));
        }
    }
}

proof fn lemma_complete_lines(text: Seq<char>)
    requires
        text.len() == 0 || text.last() == '\n',
    ensures
        entries_of(split_lines(text).drop_last()) == ledger_refs(text),
{
    let p = split_lines(text);
    let d = p.drop_last();
    assert(parse_entry(Seq::<char>::empty()) is None);
    if text.len() == 0 {
        assert(d =~= Seq::<Seq<char>>::empty());
        assert(p =~= d.push(Seq::<char>::empty()));
    } else {
        assert(p == split_lines(text.drop_last()).push(Seq::empty()));
        assert(p =~= d.push(Seq::<char>::empty()));
    }
    lemma_entries_push(d, Seq::<char>::empty());
}

proof fn lemma_entries_one_line(line: Seq<char>, r: Seq<char>)
    requires
        parse_entry(line) == Some(r),
    ensures
        entries_of(seq![line, Seq::<char>::empty()]) == set![r],
{
    let ls = seq![line, Seq::<char>::empty()];
    assert(ls =~= seq![line].push(Seq::<char>::empty()));
    assert(seq![line] =~= Seq::<Seq<char>>::empty().push(line));
    assert(entries_of(Seq::<Seq<char>>::empty()) =~= Set::<Seq<char>>::empty());
    lemma_entries_push(Seq::<Seq<char>>::empty(), line);
    lemma_entries_push(seq![line], Seq::<char>::empty());
    assert(parse_entry(Seq::<char>::empty()) is None);
    assert(Set::<Seq<char>>::empty().insert(r) =~= set![r]);
}

/// Appending the entry line of a reference, and a line feed, to a ledger text
/// whose last line is complete adds exactly that reference to what the text
/// records: a recorded download is found again when the ledger is reloaded.
pub proof fn lemma_append_entry(text: Seq<char>, stamp: Seq<char>, reference: Seq<char>)
    requires
        text.len() == 0 || text.last() == '\n',
        stamp.len() > 0,
        forall|k: int| 0 <= k < stamp.len() ==> is_digit(#[trigger] stamp[k]),
        valid_reference(reference),
    ensures
        ledger_refs(text + (stamp + seq![' '] + reference) + seq!['\n']) == ledger_refs(
            text,
        ).insert(reference),
{
    let line = stamp + seq![' '] + reference;
    let tail = line + seq!['\n'];
    assert(text + line + seq!['\n'] =~= text + tail);
    lemma_split_concat(text, tail);
    lemma_entry_line_single(stamp, reference);
    lemma_split_single_line(line);
    assert(tail.drop_last() =~= line);
    assert(split_lines(tail) =~= seq![line, Seq::<char>::empty()]);
    lemma_entry_parses(stamp, reference);
    lemma_entries_one_line(line, reference);
    let d = split_lines(text).drop_last();
    lemma_entries_concat(d, seq![line, Seq::<char>::empty()]);
    lemma_complete_lines(text);
    assert(entries_of(d).union(set![reference]) =~= ledger_refs(text).insert(reference));
}

/// The text a new ledger file starts with: a title line and a rule.
pub open spec fn header_text() -> Seq<char> {
    "Generate Podcast Downloader\n"@ + Seq::new(40, |i: int| '-')
}

proof fn lemma_nondigit_start(line: Seq<char>)
    requires
        line.len() > 0,
        !is_digit(line[0]),
    ensures
        parse_entry(line) is None,
{
    lemma_next_index_bounds(line, ' ', 0);
}

/// The header of a new ledger file records no reference.
pub proof fn lemma_header_records_nothing()
    ensures
        ledger_refs(header_text()) == Set::<Seq<char>>::empty(),
{
    reveal_strlit("Generate Podcast Downloader\n");
    let a = "Generate Podcast Downloader\n"@;
    let title = a.drop_last();
    let rule = Seq::new(40, |i: int| '-');
    assert(a.len() == 28);
    assert(a.last() == '\n');
    assert(!title.contains('\n')) by {
        if title.contains('\n') {
            let j = choose|j: int| 0 <= j < title.len() && title[j] == '\n';
            assert(title[j] == a[j]);
        }
    }
    assert(!rule.contains('\n'));
    lemma_split_single_line(title);
    lemma_split_single_line(rule);
    lemma_split_concat(a, rule);
    assert(split_lines(a) == split_lines(title).push(Seq::empty()));
    assert(split_lines(a).drop_last() =~= seq![title]);
    assert(split_lines(header_text()) =~= seq![title, rule]);
    assert(title[0] == 'G');
    lemma_nondigit_start(title);
    lemma_nondigit_start(rule);
    assert forall|r: Seq<char>| !ledger_refs(header_text()).contains(r) by {
        let ls = seq![title, rule];
        assert(ls[0] == title);
        assert(ls[1] == rule);
    }
    assert(ledger_refs(header_text()) =~= Set::<Seq<char>>::empty());
}

/// The first lines of a new ledger file: a title and a rule.
pub fn ledger_header() -> (r: String)
    ensures
        r@ == header_text(),
{
    let mut out = String::from_str("Generate Podcast Downloader\n");
    let ghost head = out@;
    let mut i: usize = 0;
    while i < 40
        invariant
            i <= 40,
            out@ == head + Seq::new(i as nat, |j: int| '-'),
        decreases 40 - i,
    {
        out.append("-");
        proof {
            reveal_strlit("Generate Podcast Downloader\n");
            reveal_strlit("-");
            assert(out@ =~= head + Seq::new((i + 1) as nat, |j: int| '-'));
        }
        i = i + 1;
    }
    out
}

impl Ledger {
    /// A ledger that records nothing yet.
    pub fn new() -> (r: Ledger)
        ensures
            r@ == Set::<Seq<char>>::empty(),
    {
        let r = Ledger { keys: Vec::new() };
        assert(r@ =~= Set::<Seq<char>>::empty());
        r
    }

    /// Whether `reference` was recorded, matched exactly.
    pub fn contains(&self, reference: &str) -> (r: bool)
        ensures
            r == self@.contains(reference@),
    {
        let mut i: usize = 0;
        while i < self.keys.len()
            invariant
                i <= self.keys@.len(),
                forall|j: int| 0 <= j < i ==> self.keys@[j]@ != reference@,
            decreases self.keys.len() - i,
        {
            if same_text(self.keys[i].as_str(), reference) {
                return true;
            }
            i = i + 1;
        }
        false
    }

    /// Records `reference`.
    pub fn insert(&mut self, reference: &str)
        ensures
            final(self)@ == old(self)@.insert(reference@),
    {
        if !self.contains(reference) {
            self.keys.push(String::from_str(reference));
            proof {
                let a = final(self)@;
                let b = old(self)@.insert(reference@);
                assert forall|r: Seq<char>| b.contains(r) implies a.contains(r) by {
                    if r == reference@ {
                        assert(self.keys@[self.keys@.len() - 1]@ == r);
                    } else {
                        let i = choose|i: int| 0 <= i < old(self).keys@.len() && #[trigger] old(self).keys@[i]@ == r;
                        assert(self.keys@[i] == old(self).keys@[i]);
                    }
                }
                assert forall|r: Seq<char>| a.contains(r) implies b.contains(r) by {
                    let i = choose|i: int| 0 <= i < self.keys@.len() && #[trigger] self.keys@[i]@ == r;
                    if i < old(self).keys@.len() {
                        assert(self.keys@[i] == old(self).keys@[i]);
                    }
                }
                assert(a =~= b);
            }
        } else {
            assert(old(self)@.insert(reference@) =~= old(self)@);
        }
    }

    /// The ledger that a ledger text records: one reference per entry line.
    pub fn load(text: &str) -> (r: Ledger)
        ensures
            r@ == ledger_refs(text@),
    {
        let s = text;
        let n = s.unicode_len();
        let mut ledger = Ledger::new();
        let mut start: usize = 0;
        let mut k: usize = 0;
        proof {
            assert(s@.take(0) =~= Seq::<char>::empty());
            assert(split_lines(s@.take(0)).drop_last() =~= Seq::<Seq<char>>::empty());
            assert(entries_of(Seq::<Seq<char>>::empty()) =~= Set::<Seq<char>>::empty());
        }
        while k < n
            invariant
                n == s@.len(),
                start <= k <= n,
                split_lines(s@.take(k as int)).len() >= 1,
                split_lines(s@.take(k as int)).last() == s@.subrange(start as int, k as int),
                ledger@ == entries_of(split_lines(s@.take(k as int)).drop_last()),
            decreases n - k,
        {
            let c = s.get_char(k);
            let ghost p = split_lines(s@.take(k as int));
            assert(s@.take(k + 1).drop_last() =~= s@.take(k as int));
            assert(s@.take(k + 1).last() == c);
            if c == '\n' {
                let line = s.substring_char(start, k);
                let e = parse_entry_line(line);
                match e {
                    Some(x) => {
                        ledger.insert(x.as_str());
                    },
                    None => {},
                }
                proof {
                    assert(split_lines(s@.take(k + 1)) == p.push(Seq::empty()));
                    assert(split_lines(s@.take(k + 1)).drop_last() =~= p.drop_last().push(
                        p.last(),
                    ));
                    lemma_entries_push(p.drop_last(), p.last());
                    assert(s@.subrange(k + 1, k + 1) =~= Seq::<char>::empty());
                }
                start = k + 1;
            } else {
                proof {
                    let q = p.update(p.len() - 1, p.last().push(c));
                    assert(split_lines(s@.take(k + 1)) == q);
                    assert(q.drop_last() =~= p.drop_last());
                    assert(s@.subrange(start as int, k + 1) =~= s@.subrange(
                        start as int,
                        k as int,
                    ).push(c));
                }
            }
            k = k + 1;
        }
        let line = s.substring_char(start, n);
        let e = parse_entry_line(line);
        match e {
            Some(x) => {
                ledger.insert(x.as_str());
            },
            None => {},
        }
        proof {
            let p = split_lines(s@.take(n as int));
            assert(s@.take(n as int) =~= s@);
            assert(p =~= p.drop_last().push(p.last()));
            lemma_entries_push(p.drop_last(), p.last());
        }
        ledger
    }
}

} // verus!
