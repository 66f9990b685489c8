use vstd::prelude::*;

use crate::ledger::Ledger;
use crate::naming::{derive_filename, filename_of};
use crate::text::{contains_seq, contains_text};

verus! {

/// A link found on a listing page: its target and the file name it suggests.
pub struct Anchor {
    pub href: Option<String>,
    pub download: Option<String>,
}

/// What a link is made of, as plain sequences.
pub type AnchorView = (Option<Seq<char>>, Option<Seq<char>>);

impl View for Anchor {
    type V = AnchorView;

    open spec fn view(&self) -> AnchorView {
        (
            match self.href {
                Some(h) => Some(h@),
                None => None,
            },
            match self.download {
                Some(d) => Some(d@),
                None => None,
            },
        )
    }
}

/// An item to fetch: the reference it is fetched by and the file name it is
/// saved under.
pub struct Candidate {
    pub reference: String,
    pub filename: String,
}

/// Reference and file name of a candidate.
pub type CandidateView = (Seq<char>, Seq<char>);

impl View for Candidate {
    type V = CandidateView;

    open spec fn view(&self) -> CandidateView {
        (self.reference@, self.filename@)
    }
}

/// The links that `Html::parse_document(html)` yields for the CSS selector
/// `css`, in the order scraper's tree holds its nodes, as (href, download)
/// attribute pairs; none when the selector does not parse.
pub uninterp spec fn selected_links(html: Seq<char>, css: Seq<char>) -> Option<Seq<AnchorView>>;

pub open spec fn anchors_view(v: Seq<Anchor>) -> Seq<AnchorView> {
    v.map_values(|a: Anchor| a@)
}

pub open spec fn candidates_view(v: Seq<Candidate>) -> Seq<CandidateView> {
    v.map_values(|c: Candidate| c@)
}

/// Relies on scraper's `Selector::parse`, `Html::parse_document`,
/// `Html::select` and `ElementRef::attr`: the selected elements and their
/// `href` and `download` attributes, which depend on the two texts alone.
#[verifier::external_body]
fn select_links(html: &str, css: &str) -> (r: Option<Vec<Anchor>>)
    ensures
        match r {
            Some(v) => selected_links(html@, css@) == Some(anchors_view(v@)),
            None => selected_links(html@, css@) is None,
        },
{
    let selector = match scraper::Selector::parse(css) {
        Ok(s) => s,
        Err(_) => return None,
    };
    let document = scraper::Html::parse_document(html);
    let links = document.select(&selector).map(
        |e| Anchor { href: e.attr("href").map(String::from), download: e.attr("download").map(String::from) },
    ).collect();
    Some(links)
}

/// The candidate that a link yields: none when it has no target, when its
/// target holds the exclusion marker or is already recorded, or when no file
/// name can be derived from it.
pub open spec fn candidate_of(a: AnchorView, recorded: Set<Seq<char>>, marker: Seq<char>) -> Option<
    CandidateView,
> {
    match a.0 {
        None => None,
        Some(h) => if contains_seq(h, marker) || recorded.contains(h) {
            None
        } else {
            match a.1 {
                None => None,
                Some(d) => match filename_of(d) {
                    None => None,
                    Some(f) => Some((h, f)),
                },
            }
        },
    }
}

/// The candidates that a listing yields, in listing order.
pub open spec fn plan_of(anchors: Seq<AnchorView>, recorded: Set<Seq<char>>, marker: Seq<char>) -> Seq<
    CandidateView,
>
    decreases anchors.len(),
{
    if anchors.len() == 0 {
        Seq::empty()
    } else {
        let p = plan_of(anchors.drop_last(), recorded, marker);
        match candidate_of(anchors.last(), recorded, marker) {
            Some(c) => p.push(c),
            None => p,
        }
    }
}

/// The references of a sequence of candidates.
pub open spec fn refs_of(cs: Seq<CandidateView>) -> Set<Seq<char>> {
    Set::new(|r: Seq<char>| exists|i: int| 0 <= i < cs.len() && (#[trigger] cs[i]).0 == r)
}

/// The candidates to fetch among `anchors`: each link with a target that does
/// not hold `marker`, that `ledger` has not recorded, and from whose suggested
/// name a file name can be derived.
pub fn plan_candidates(anchors: &Vec<Anchor>, ledger: &Ledger, marker: &str) -> (r: Vec<Candidate>)
    ensures
        candidates_view(r@) == plan_of(anchors_view(anchors@), ledger@, marker@),
{
    let mut out: Vec<Candidate> = Vec::new();
    let mut i: usize = 0;
    while i < anchors.len()
        invariant
            i <= anchors@.len(),
            candidates_view(out@) == plan_of(anchors_view(anchors@).take(i as int), ledger@, marker@),
        decreases anchors.len() - i,
    {
        let a = &anchors[i];
        let ghost av = anchors_view(anchors@);
        proof {
            assert(av.take(i + 1).drop_last() =~= av.take(i as int));
            assert(av.take(i + 1).last() == a@);
        }
        match &a.href {
            None => {},
            Some(h) => {
                if !contains_text(h.as_str(), marker) && !ledger.contains(h.as_str()) {
                    match &a.download {
                        None => {},
                        Some(d) => {
                            match derive_filename(d.as_str()) {
                                None => {},
                                Some(f) => {
                                    let c = Candidate { reference: h.clone(), filename: f };
                                    let ghost before = out@;
                                    out.push(c);
                                    proof {
                                        assert(candidates_view(out@) =~= candidates_view(before).push(
                                            c@,
                                        ));
                                    }
                                },
                            }
                        },
                    }
                }
            },
        }
        i = i + 1;
    }
    assert(anchors_view(anchors@).take(anchors@.len() as int) =~= anchors_view(anchors@));
    out
}

/// The marker that tells the low-quality variant of a recording.
pub open spec fn low_quality_marker() -> Seq<char> {
    "audio-nondrm-download-low"@
}

/// The CSS selector of the links to media files.
pub open spec fn media_selector() -> Seq<char> {
    "a[href$=\".mp3\"]"@
}

/// The candidates to fetch on a listing page: the links to media files that
/// are not the low-quality variant and that `ledger` has not recorded.
pub fn discover(html: &str, ledger: &Ledger) -> (r: Option<Vec<Candidate>>)
    ensures
        match selected_links(html@, media_selector()) {
            None => r is None,
            Some(links) => r matches Some(v) && candidates_view(v@) == plan_of(
                links,
                ledger@,
                low_quality_marker(),
            ),
        },
{
    match select_links(html, "a[href$=\".mp3\"]") {
        None => None,
        Some(links) => Some(plan_candidates(&links, ledger, "audio-nondrm-download-low")),
    }
}

proof fn lemma_plan_refs_grow(anchors: Seq<AnchorView>, recorded: Set<Seq<char>>, marker: Seq<char>)
    requires
        anchors.len() > 0,
    ensures
        refs_of(plan_of(anchors.drop_last(), recorded, marker)).subset_of(
            refs_of(plan_of(anchors, recorded, marker)),
        ),
        candidate_of(anchors.last(), recorded, marker) matches Some(c) ==> refs_of(
            plan_of(anchors, recorded, marker),
        ).contains(c.0),
{
    let p = plan_of(anchors.drop_last(), recorded, marker);
    match candidate_of(anchors.last(), recorded, marker) {
        Some(c) => {
            let q = p.push(c);
            assert forall|r: Seq<char>| refs_of(p).contains(r) implies refs_of(q).contains(r) by {
                let i = choose|i: int| 0 <= i < p.len() && (#[trigger] p[i]).0 == r;
                assert(q[i] == p[i]);
            }
            assert(q[p.len() as int] == c);
        },
        None => {},
    }
}

/// A listing planned against a ledger that records every reference planned
/// from it before yields nothing more.
pub proof fn lemma_replan_is_empty(
    anchors: Seq<AnchorView>,
    recorded: Set<Seq<char>>,
    later: Set<Seq<char>>,
    marker: Seq<char>,
)
    requires
        recorded.subset_of(later),
        refs_of(plan_of(anchors, recorded, marker)).subset_of(later),
    ensures
        plan_of(anchors, later, marker) == Seq::<CandidateView>::empty(),
    decreases anchors.len(),
{
    if anchors.len() > 0 {
        lemma_plan_refs_grow(anchors, recorded, marker);
        lemma_replan_is_empty(anchors.drop_last(), recorded, later, marker);
    }
}

/// No candidate planned against a ledger carries a reference that the ledger
/// records.
pub proof fn lemma_recorded_not_planned(
    anchors: Seq<AnchorView>,
    recorded: Set<Seq<char>>,
    marker: Seq<char>,
    r: Seq<char>,
)
    requires
        recorded.contains(r),
    ensures
        !refs_of(plan_of(anchors, recorded, marker)).contains(r),
    decreases anchors.len(),
{
    if anchors.len() > 0 {
        lemma_recorded_not_planned(anchors.drop_last(), recorded, marker, r);
        let p = plan_of(anchors.drop_last(), recorded, marker);
        match candidate_of(anchors.last(), recorded, marker) {
            Some(c) => {
                let q = p.push(c);
                if refs_of(q).contains(r) {
                    let i = choose|i: int| 0 <= i < q.len() && (#[trigger] q[i]).0 == r;
                    if i < p.len() {
                        assert(p[i] == q[i]);
                        assert(refs_of(p).contains(r));
                    }
                }
            },
            None => {},
        }
    }
}

/// A link that yields a candidate when nothing is recorded yields it again
/// for any ledger that does not record its reference, whatever was saved
/// before.
pub proof fn lemma_unrecorded_is_planned(
    anchors: Seq<AnchorView>,
    recorded: Set<Seq<char>>,
    marker: Seq<char>,
    j: int,
)
    requires
        0 <= j < anchors.len(),
        candidate_of(anchors[j], Set::empty(), marker) is Some,
        !recorded.contains(candidate_of(anchors[j], Set::empty(), marker)->Some_0.0),
    ensures
        plan_of(anchors, recorded, marker).contains(candidate_of(anchors[j], Set::empty(), marker)->Some_0),
    decreases anchors.len(),
{
    let c = candidate_of(anchors[j], Set::empty(), marker)->Some_0;
    let p = plan_of(anchors.drop_last(), recorded, marker);
    if j == anchors.len() - 1 {
        assert(candidate_of(anchors.last(), recorded, marker) == Some(c));
        assert(p.push(c)[p.len() as int] == c);
    } else {
        assert(anchors.drop_last()[j] == anchors[j]);
        lemma_unrecorded_is_planned(anchors.drop_last(), recorded, marker, j);
        let k = choose|k: int| 0 <= k < p.len() && p[k] == c;
        match candidate_of(anchors.last(), recorded, marker) {
            Some(d) => {
                assert(p.push(d)[k] == c);
            },
            None => {},
        }
    }
}

} // verus!
