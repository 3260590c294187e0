//! Structure-extraction heuristics over a parsed document: the biggest
//! paragraph container (text pages), the biggest image container (galleries),
//! the biggest link cluster (index pages), the first matching "next" anchor,
//! and the page title.
use crate::chars;
use crate::dom::{
    attr_of, child_of, has_ancestor, is_elem, is_text, text_of, Dom, NodeModel,
};
use vstd::prelude::*;

verus! {

/// Which container heuristic is being applied.
#[derive(Clone, Copy)]
pub enum Heur {
    /// The `<div>` holding the most direct children, among divs with a `<p>`
    /// child: the main text container.
    Text,
    /// The `<div>` holding the most direct `<img>` children: the gallery.
    Img,
    /// The `<div>` with the most `<a>` descendants, among divs holding list
    /// or paragraph structure: the chapter-link cluster.
    Link,
}

/// Node `j` is paragraph-, table- or list-shaped.
pub open spec fn struct_elem(d: Seq<NodeModel>, j: int) -> bool {
    is_elem(d, j, "p"@) || is_elem(d, j, "table"@) || is_elem(d, j, "ul"@)
}

/// Node `j` qualifies node `i` as a candidate container for heuristic `h`.
pub open spec fn wit(d: Seq<NodeModel>, i: int, j: int, h: Heur) -> bool {
    match h {
        Heur::Text => child_of(d, i, j) && is_elem(d, j, "p"@),
        Heur::Img => child_of(d, i, j) && is_elem(d, j, "img"@),
        Heur::Link => has_ancestor(d, i, j) && struct_elem(d, j),
    }
}

/// Node `i` is a candidate container for heuristic `h`.
pub open spec fn cand(d: Seq<NodeModel>, i: int, h: Heur) -> bool {
    is_elem(d, i, "div"@) && exists|j: int| wit(d, i, j, h)
}

/// Node `j` adds one to the score of container `i` under heuristic `h`.
pub open spec fn hit(d: Seq<NodeModel>, i: int, j: int, h: Heur) -> bool {
    match h {
        Heur::Text => child_of(d, i, j),
        Heur::Img => child_of(d, i, j) && is_elem(d, j, "img"@),
        Heur::Link => has_ancestor(d, i, j) && is_elem(d, j, "a"@),
    }
}

/// How many of the first `k` nodes add to the score of container `i`.
pub open spec fn cnt(d: Seq<NodeModel>, i: int, h: Heur, k: int) -> int
    decreases k,
{
    if k <= 0 {
        0
    } else {
        cnt(d, i, h, k - 1) + if hit(d, i, k - 1, h) {
            1int
        } else {
            0int
        }
    }
}

/// The score of container `i` under heuristic `h`.
pub open spec fn score(d: Seq<NodeModel>, i: int, h: Heur) -> int {
    cnt(d, i, h, d.len() as int)
}

/// Node `b` is the selected container: the first candidate with the greatest
/// score (earlier candidates score strictly less, later ones no more).
pub open spec fn is_best(d: Seq<NodeModel>, b: int, h: Heur) -> bool {
    &&& cand(d, b, h)
    &&& forall|j: int| 0 <= j < b && cand(d, j, h) ==> score(d, j, h) < score(d, b, h)
    &&& forall|j: int|
        b < j < d.len() && cand(d, j, h) ==> score(d, j, h) <= score(d, b, h)
}

/// The selected container is unique.
pub proof fn lemma_best_unique(d: Seq<NodeModel>, h: Heur, a: int, b: int)
    requires
        is_best(d, a, h),
        is_best(d, b, h),
    ensures
        a == b,
{
    if a < b {
        assert(score(d, a, h) < score(d, b, h));
        assert(score(d, b, h) <= score(d, a, h));
    } else if b < a {
        assert(score(d, b, h) < score(d, a, h));
        assert(score(d, a, h) <= score(d, b, h));
    }
}

/// Whether node `j` qualifies node `i` as a candidate under `h`.
fn wit_at(dom: &Dom, i: usize, j: usize, h: Heur) -> (r: bool)
    requires
        dom.wf(),
        i < dom@.len(),
        j < dom@.len(),
    ensures
        r == wit(dom@, i as int, j as int, h),
{
    match h {
        Heur::Text => {
            let pn: Vec<char> = chars::chars_of("p");
            parent_is(dom, j, i) && dom.is_elem_at(j, &pn)
        },
        Heur::Img => {
            let im: Vec<char> = chars::chars_of("img");
            parent_is(dom, j, i) && dom.is_elem_at(j, &im)
        },
        Heur::Link => {
            let pn: Vec<char> = chars::chars_of("p");
            let tb: Vec<char> = chars::chars_of("table");
            let ul: Vec<char> = chars::chars_of("ul");
            dom.is_under(i, j) && (dom.is_elem_at(j, &pn) || dom.is_elem_at(j, &tb)
                || dom.is_elem_at(j, &ul))
        },
    }
}

/// Whether node `j`'s parent is node `i`.
fn parent_is(dom: &Dom, j: usize, i: usize) -> (r: bool)
    requires
        j < dom@.len(),
    ensures
        r == child_of(dom@, i as int, j as int),
{
    match dom.parent_of(j) {
        Some(p) => p == i,
        None => false,
    }
}

/// Whether node `j` adds to the score of container `i` under `h`.
fn hit_at(dom: &Dom, i: usize, j: usize, h: Heur) -> (r: bool)
    requires
        dom.wf(),
        i < dom@.len(),
        j < dom@.len(),
    ensures
        r == hit(dom@, i as int, j as int, h),
{
    match h {
        Heur::Text => parent_is(dom, j, i),
        Heur::Img => {
            let im: Vec<char> = chars::chars_of("img");
            parent_is(dom, j, i) && dom.is_elem_at(j, &im)
        },
        Heur::Link => {
            let an: Vec<char> = chars::chars_of("a");
            dom.is_under(i, j) && dom.is_elem_at(j, &an)
        },
    }
}

/// Whether node `i` is a candidate container under `h`.
fn cand_at(dom: &Dom, i: usize, h: Heur) -> (r: bool)
    requires
        dom.wf(),
        i < dom@.len(),
    ensures
        r == cand(dom@, i as int, h),
{
    let dv: Vec<char> = chars::chars_of("div");
    if !dom.is_elem_at(i, &dv) {
        return false;
    }
    let n: usize = dom.count();
    let mut j: usize = 0;
    while j < n
        invariant
            dom.wf(),
            n == dom@.len(),
            i < n,
            is_elem(dom@, i as int, "div"@),
            0 <= j <= n,
            forall|k: int| 0 <= k < j ==> !wit(dom@, i as int, k, h),
        decreases n - j,
    {
        if wit_at(dom, i, j, h) {
            return true;
        }
        j += 1;
    }
    proof {
        assert forall|k: int| !wit(dom@, i as int, k, h) by {
            if 0 <= k < dom@.len() {
                assert(!wit(dom@, i as int, k, h));
            } else {
                assert(!child_of(dom@, i as int, k));
                assert(!has_ancestor(dom@, i as int, k));
            }
        }
    }
    false
}

/// The score of container `i` under `h`.
fn score_at(dom: &Dom, i: usize, h: Heur) -> (r: usize)
    requires
        dom.wf(),
        i < dom@.len(),
    ensures
        r == score(dom@, i as int, h),
{
    let n: usize = dom.count();
    let mut j: usize = 0;
    let mut acc: usize = 0;
    while j < n
        invariant
            dom.wf(),
            n == dom@.len(),
            i < n,
            0 <= j <= n,
            acc <= j,
            acc == cnt(dom@, i as int, h, j as int),
        decreases n - j,
    {
        if hit_at(dom, i, j, h) {
            acc += 1;
        }
        j += 1;
    }
    acc
}

/// The selected container under heuristic `h`, if any candidate exists.
fn best_node(dom: &Dom, h: Heur) -> (r: Option<usize>)
    requires
        dom.wf(),
    ensures
        match r {
            Some(b) => b < dom@.len() && is_best(dom@, b as int, h),
            None => forall|i: int| !cand(dom@, i, h),
        },
{
    let n: usize = dom.count();
    let mut i: usize = 0;
    let mut best: usize = 0;
    let mut best_score: usize = 0;
    let mut found: bool = false;
    while i < n
        invariant
            dom.wf(),
            n == dom@.len(),
            0 <= i <= n,
            !found ==> forall|k: int| 0 <= k < i ==> !cand(dom@, k, h),
            found ==> best < i && cand(dom@, best as int, h) && best_score == score(
                dom@,
                best as int,
                h,
            ),
            found ==> forall|k: int|
                0 <= k < best && cand(dom@, k, h) ==> score(dom@, k, h) < best_score,
            found ==> forall|k: int|
                best < k < i && cand(dom@, k, h) ==> score(dom@, k, h) <= best_score,
        decreases n - i,
    {
        if cand_at(dom, i, h) {
            let s: usize = score_at(dom, i, h);
            if !found || s > best_score {
                best = i;
                best_score = s;
                found = true;
            }
        }
        i += 1;
    }
    if found {
        Some(best)
    } else {
        proof {
            assert forall|k: int| !cand(dom@, k, h) by {
                if 0 <= k < dom@.len() {
                    assert(!cand(dom@, k, h));
                }
            }
        }
        None
    }
}

/// Some candidate container exists under heuristic `h`.
pub open spec fn has_best(d: Seq<NodeModel>, h: Heur) -> bool {
    exists|b: int| is_best(d, b, h)
}

/// The selected container under heuristic `h`.
pub open spec fn best_of(d: Seq<NodeModel>, h: Heur) -> int {
    choose|b: int| is_best(d, b, h)
}

/// The parent index of node `j` (`-1` for a root).
pub open spec fn parent_idx(d: Seq<NodeModel>, j: int) -> int {
    match d[j].parent {
        Some(p) => p as int,
        None => -1,
    }
}

/// Text node `j` counts for text extraction from container `b`: it sits
/// inside one of `b`'s children, not directly under `b` itself.
pub open spec fn text_incl(d: Seq<NodeModel>, b: int, j: int) -> bool {
    is_text(d, j) && has_ancestor(d, b, j) && !child_of(d, b, j)
}

/// The texts collected from the first `k` nodes for container `b`.
pub open spec fn texts_upto(d: Seq<NodeModel>, b: int, k: int) -> Seq<Seq<char>>
    decreases k,
{
    if k <= 0 {
        Seq::empty()
    } else if text_incl(d, b, k - 1) {
        texts_upto(d, b, k - 1).push(text_of(d, k - 1))
    } else {
        texts_upto(d, b, k - 1)
    }
}

/// All texts collected for container `b`, in document order.
pub open spec fn texts_of(d: Seq<NodeModel>, b: int) -> Seq<Seq<char>> {
    texts_upto(d, b, d.len() as int)
}

/// Image `j` counts for gallery extraction from container `b`: a direct
/// `<img>` child carrying a `src` attribute.
pub open spec fn img_incl(d: Seq<NodeModel>, b: int, j: int) -> bool {
    child_of(d, b, j) && is_elem(d, j, "img"@) && attr_of(d, j, "src"@) is Some
}

/// The image locations collected from the first `k` nodes for container `b`.
pub open spec fn imgs_upto(d: Seq<NodeModel>, b: int, k: int) -> Seq<Seq<char>>
    decreases k,
{
    if k <= 0 {
        Seq::empty()
    } else if img_incl(d, b, k - 1) {
        imgs_upto(d, b, k - 1).push(attr_of(d, k - 1, "src"@).unwrap())
    } else {
        imgs_upto(d, b, k - 1)
    }
}

/// All image locations for container `b`, in document order.
pub open spec fn imgs_of(d: Seq<NodeModel>, b: int) -> Seq<Seq<char>> {
    imgs_upto(d, b, d.len() as int)
}

/// Anchor `j` counts for link harvesting from container `b`: an `<a>`
/// descendant carrying an `href` attribute.
pub open spec fn link_incl(d: Seq<NodeModel>, b: int, j: int) -> bool {
    has_ancestor(d, b, j) && is_elem(d, j, "a"@) && attr_of(d, j, "href"@) is Some
}

/// The link targets collected from the first `k` nodes for container `b`.
pub open spec fn links_upto(d: Seq<NodeModel>, b: int, k: int) -> Seq<Seq<char>>
    decreases k,
{
    if k <= 0 {
        Seq::empty()
    } else if link_incl(d, b, k - 1) {
        links_upto(d, b, k - 1).push(attr_of(d, k - 1, "href"@).unwrap())
    } else {
        links_upto(d, b, k - 1)
    }
}

/// All link targets for container `b`, in document order.
pub open spec fn links_of(d: Seq<NodeModel>, b: int) -> Seq<Seq<char>> {
    links_upto(d, b, d.len() as int)
}

/// Text node `j` identifies a "next page" anchor: its visible text holds the
/// predicate substring and its parent is an `<a>` carrying an `href`.
pub open spec fn next_match(d: Seq<NodeModel>, pred: Seq<char>, j: int) -> bool {
    &&& is_text(d, j)
    &&& 0 <= parent_idx(d, j)
    &&& is_elem(d, parent_idx(d, j), "a"@)
    &&& attr_of(d, parent_idx(d, j), "href"@) is Some
    &&& chars::contains_sub(text_of(d, j), pred)
}

/// `j` is the first "next page" match in document order.
pub open spec fn first_next_match(d: Seq<NodeModel>, pred: Seq<char>, j: int) -> bool {
    next_match(d, pred, j) && forall|k: int| 0 <= k < j ==> !next_match(d, pred, k)
}

/// Node `t` is the first `<title>` element in document order.
pub open spec fn first_title(d: Seq<NodeModel>, t: int) -> bool {
    is_elem(d, t, "title"@) && forall|k: int| 0 <= k < t ==> !is_elem(d, k, "title"@)
}

/// The concatenated text under `t` collected from the first `k` nodes.
pub open spec fn title_upto(d: Seq<NodeModel>, t: int, k: int) -> Seq<char>
    decreases k,
{
    if k <= 0 {
        Seq::empty()
    } else if is_text(d, k - 1) && has_ancestor(d, t, k - 1) {
        title_upto(d, t, k - 1) + text_of(d, k - 1)
    } else {
        title_upto(d, t, k - 1)
    }
}

/// The whole text under title node `t`, in document order.
pub open spec fn title_text_of(d: Seq<NodeModel>, t: int) -> Seq<char> {
    title_upto(d, t, d.len() as int)
}

/// Text of every text node inside the children of the biggest paragraph
/// container, in document order; nothing when no `<div>` with a `<p>` child
/// exists.
pub fn extract_text(dom: &Dom) -> (r: Option<Vec<String>>)
    requires
        dom.wf(),
    ensures
        match r {
            Some(v) => has_best(dom@, Heur::Text) && v.deep_view() == texts_of(
                dom@,
                best_of(dom@, Heur::Text),
            ),
            None => !has_best(dom@, Heur::Text) && (forall|i: int|
                !cand(dom@, i, Heur::Text)),
        },
{
    let b: usize = match best_node(dom, Heur::Text) {
        Some(b) => b,
        None => {
            return None;
        },
    };
    proof {
        assert(has_best(dom@, Heur::Text));
        lemma_best_unique(dom@, Heur::Text, best_of(dom@, Heur::Text), b as int);
    }
    let n: usize = dom.count();
    let mut out: Vec<String> = Vec::new();
    let mut j: usize = 0;
    while j < n
        invariant
            dom.wf(),
            n == dom@.len(),
            b < n,
            0 <= j <= n,
            out.deep_view() =~= texts_upto(dom@, b as int, j as int),
        decreases n - j,
    {
        let inc: bool = dom.is_text_at(j) && dom.is_under(b, j) && !parent_is(dom, j, b);
        proof {
            assert(inc == text_incl(dom@, b as int, j as int));
        }
        if inc {
            let t: Vec<char> = dom.text_at(j);
            let s: String = chars::string_of(&t);
            let ghost prev = out.deep_view();
            out.push(s);
            proof {
                assert(out.deep_view() =~= prev.push(s@));
            }
        }
        j += 1;
    }
    Some(out)
}

/// The `src` of each direct `<img>` child of the biggest image container, in
/// document order; nothing when no `<div>` with an `<img>` child exists.
pub fn extract_images(dom: &Dom) -> (r: Option<Vec<String>>)
    requires
        dom.wf(),
    ensures
        match r {
            Some(v) => has_best(dom@, Heur::Img) && v.deep_view() == imgs_of(
                dom@,
                best_of(dom@, Heur::Img),
            ),
            None => !has_best(dom@, Heur::Img) && (forall|i: int|
                !cand(dom@, i, Heur::Img)),
        },
{
    let b: usize = match best_node(dom, Heur::Img) {
        Some(b) => b,
        None => {
            return None;
        },
    };
    proof {
        assert(has_best(dom@, Heur::Img));
        lemma_best_unique(dom@, Heur::Img, best_of(dom@, Heur::Img), b as int);
    }
    let im: Vec<char> = chars::chars_of("img");
    let sr: Vec<char> = chars::chars_of("src");
    let n: usize = dom.count();
    let mut out: Vec<String> = Vec::new();
    let mut j: usize = 0;
    while j < n
        invariant
            dom.wf(),
            n == dom@.len(),
            b < n,
            im@ == "img"@,
            sr@ == "src"@,
            0 <= j <= n,
            out.deep_view() =~= imgs_upto(dom@, b as int, j as int),
        decreases n - j,
    {
        if parent_is(dom, j, b) && dom.is_elem_at(j, &im) {
            match dom.attr_at(j, &sr) {
                Some(src) => {
                    assert(img_incl(dom@, b as int, j as int));
                    let ghost prev = out.deep_view();
                    out.push(src);
                    proof {
                        assert(out.deep_view() =~= prev.push(attr_of(
                            dom@,
                            j as int,
                            "src"@,
                        ).unwrap()));
                    }
                },
                None => {
                    assert(!img_incl(dom@, b as int, j as int));
                },
            }
        }
        j += 1;
    }
    Some(out)
}

/// The `href` of each `<a>` descendant of the biggest link cluster, in
/// document order; nothing when no qualifying `<div>` exists.
pub fn extract_links(dom: &Dom) -> (r: Option<Vec<String>>)
    requires
        dom.wf(),
    ensures
        match r {
            Some(v) => has_best(dom@, Heur::Link) && v.deep_view() == links_of(
                dom@,
                best_of(dom@, Heur::Link),
            ),
            None => !has_best(dom@, Heur::Link) && (forall|i: int|
                !cand(dom@, i, Heur::Link)),
        },
{
    let b: usize = match best_node(dom, Heur::Link) {
        Some(b) => b,
        None => {
            return None;
        },
    };
    proof {
        assert(has_best(dom@, Heur::Link));
        lemma_best_unique(dom@, Heur::Link, best_of(dom@, Heur::Link), b as int);
    }
    let an: Vec<char> = chars::chars_of("a");
    let hr: Vec<char> = chars::chars_of("href");
    let n: usize = dom.count();
    let mut out: Vec<String> = Vec::new();
    let mut j: usize = 0;
    while j < n
        invariant
            dom.wf(),
            n == dom@.len(),
            b < n,
            an@ == "a"@,
            hr@ == "href"@,
            0 <= j <= n,
            out.deep_view() =~= links_upto(dom@, b as int, j as int),
        decreases n - j,
    {
        if dom.is_under(b, j) && dom.is_elem_at(j, &an) {
            match dom.attr_at(j, &hr) {
                Some(href) => {
                    assert(link_incl(dom@, b as int, j as int));
                    let ghost prev = out.deep_view();
                    out.push(href);
                    proof {
                        assert(out.deep_view() =~= prev.push(attr_of(
                            dom@,
                            j as int,
                            "href"@,
                        ).unwrap()));
                    }
                },
                None => {
                    assert(!link_incl(dom@, b as int, j as int));
                },
            }
        }
        j += 1;
    }
    Some(out)
}

/// The `href` of the first anchor whose visible text holds `pred`, scanning
/// text nodes in document order; anchors without an `href` do not match.
pub fn next_href(dom: &Dom, pred: &Vec<char>) -> (r: Option<String>)
    requires
        dom.wf(),
    ensures
        match r {
            Some(href) => exists|j: int|
                first_next_match(dom@, pred@, j) && attr_of(
                    dom@,
                    parent_idx(dom@, j),
                    "href"@,
                ) == Some(href@),
            None => forall|j: int| !next_match(dom@, pred@, j),
        },
{
    let an: Vec<char> = chars::chars_of("a");
    let hr: Vec<char> = chars::chars_of("href");
    let n: usize = dom.count();
    let mut j: usize = 0;
    while j < n
        invariant
            dom.wf(),
            n == dom@.len(),
            an@ == "a"@,
            hr@ == "href"@,
            0 <= j <= n,
            forall|k: int| 0 <= k < j ==> !next_match(dom@, pred@, k),
        decreases n - j,
    {
        if dom.is_text_at(j) {
            match dom.parent_of(j) {
                Some(p) => {
                    proof {
                        assert(p < j);
                        assert(parent_idx(dom@, j as int) == p as int);
                    }
                    if dom.is_elem_at(p, &an) {
                        match dom.attr_at(p, &hr) {
                            Some(href) => {
                                let t: Vec<char> = dom.text_at(j);
                                if chars::contains_chars(&t, pred) {
                                    proof {
                                        assert(next_match(dom@, pred@, j as int));
                                        assert(first_next_match(dom@, pred@, j as int));
                                    }
                                    return Some(href);
                                }
                            },
                            None => {},
                        }
                    }
                },
                None => {},
            }
        }
        proof {
            assert(!next_match(dom@, pred@, j as int));
        }
        j += 1;
    }
    None
}

/// The concatenated text under the first `<title>` element, in document
/// order; nothing when the page has no `<title>`.
pub fn title_text(dom: &Dom) -> (r: Option<Vec<char>>)
    requires
        dom.wf(),
    ensures
        match r {
            Some(t) => exists|ti: int|
                first_title(dom@, ti) && t@ == title_text_of(dom@, ti),
            None => forall|k: int| !is_elem(dom@, k, "title"@),
        },
{
    let tl: Vec<char> = chars::chars_of("title");
    let n: usize = dom.count();
    let mut ti: usize = 0;
    let mut found: bool = false;
    let mut i: usize = 0;
    while i < n
        invariant
            dom.wf(),
            n == dom@.len(),
            tl@ == "title"@,
            0 <= i <= n,
            !found ==> forall|k: int| 0 <= k < i ==> !is_elem(dom@, k, "title"@),
            found ==> ti < n && first_title(dom@, ti as int),
        decreases n - i,
    {
        if !found && dom.is_elem_at(i, &tl) {
            ti = i;
            found = true;
        }
        i += 1;
    }
    if !found {
        return None;
    }
    let mut out: Vec<char> = Vec::new();
    let mut j: usize = 0;
    while j < n
        invariant
            dom.wf(),
            n == dom@.len(),
            ti < n,
            first_title(dom@, ti as int),
            0 <= j <= n,
            out@ =~= title_upto(dom@, ti as int, j as int),
        decreases n - j,
    {
        if dom.is_text_at(j) && dom.is_under(ti, j) {
            let t: Vec<char> = dom.text_at(j);
            let mut k: usize = 0;
            let tlen: usize = t.len();
            let ghost prev = out@;
            while k < tlen
                invariant
                    tlen == t@.len(),
                    0 <= k <= tlen,
                    out@ =~= prev + t@.take(k as int),
                decreases tlen - k,
            {
                out.push(t[k]);
                k += 1;
            }
            proof {
                assert(t@.take(tlen as int) =~= t@);
                assert(out@ =~= prev + text_of(dom@, j as int));
            }
        }
        j += 1;
    }
    Some(out)
}

} // verus!
