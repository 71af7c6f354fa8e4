//! Footnote back-linking over rendered HTML: every footnote reference gets an
//! id and an accessible label, and every footnote definition links back to
//! the references that point at it.
use vstd::prelude::*;
use crate::text::{
    chars_to_string, contains_seq, copy_range, decimal, find_chars, find_from, lemma_find_from, occurs_at,
    push_chars, push_decimal, push_range, push_str, replace_first, replace_first_chars,
    same_chars, str_to_chars,
};

verus! {

/// A footnote reference found in the HTML: the footnote it points at, its
/// label, the id given to the reference, and how many references to the
/// same footnote came before it plus one.
pub struct FootnoteRef {
    pub id: Vec<char>,
    pub label: Vec<char>,
    pub ref_id: Vec<char>,
    pub ordinal: usize,
}

pub struct FootnoteRefModel {
    pub id: Seq<char>,
    pub label: Seq<char>,
    pub ref_id: Seq<char>,
    pub ordinal: nat,
}

impl View for FootnoteRef {
    type V = FootnoteRefModel;

    open spec fn view(&self) -> FootnoteRefModel {
        FootnoteRefModel {
            id: self.id@,
            label: self.label@,
            ref_id: self.ref_id@,
            ordinal: self.ordinal as nat,
        }
    }
}

pub open spec fn refs_view(refs: Seq<FootnoteRef>) -> Seq<FootnoteRefModel> {
    refs.map_values(|r: FootnoteRef| r@)
}

pub open spec fn reference_start() -> Seq<char> {
    "<sup class=\"footnote-reference\"><a href=\"#"@
}

pub open spec fn attribute_end() -> Seq<char> {
    "\">"@
}

pub open spec fn reference_end() -> Seq<char> {
    "</a></sup>"@
}

/// How many references in `refs` point at footnote `id`.
pub open spec fn id_count(refs: Seq<FootnoteRefModel>, id: Seq<char>) -> nat
    decreases refs.len(),
{
    if refs.len() == 0 {
        0
    } else {
        id_count(refs.drop_last(), id) + if refs.last().id == id {
            1nat
        } else {
            0nat
        }
    }
}

/// The id of the `ordinal`-th reference to footnote `id`.
pub open spec fn reference_id(id: Seq<char>, ordinal: nat) -> Seq<char> {
    if ordinal == 1 {
        "fnref-"@ + id
    } else {
        "fnref-"@ + id + "-"@ + decimal(ordinal)
    }
}

/// The HTML a footnote reference is rewritten to.
pub open spec fn reference_html(ref_id: Seq<char>, id: Seq<char>, label: Seq<char>) -> Seq<char> {
    "<sup class=\"footnote-reference\" id=\""@ + ref_id + "\"><a href=\"#"@ + id
        + "\" aria-label=\"각주 "@ + label + " 보기\">["@ + label + "]</a></sup>"@
}

/// The first pass, from index `p` of `h` on, with the references `refs`
/// already found: the rewritten text and all references found.
pub open spec fn scan_references(h: Seq<char>, p: int, refs: Seq<FootnoteRefModel>) -> (
    Seq<char>,
    Seq<FootnoteRefModel>,
)
    decreases h.len() - p,
{
    if p < 0 || p > h.len() {
        (Seq::<char>::empty(), refs)
    } else {
        match find_from(h, reference_start(), p) {
            None => (h.skip(p), refs),
            Some(start) => {
                let href_start = start + reference_start().len();
                match find_from(h, attribute_end(), href_start) {
                    None => (h.skip(p), refs),
                    Some(href_end) => {
                        let label_start = href_end + 2;
                        match find_from(h, reference_end(), label_start) {
                            None => (h.skip(p), refs),
                            Some(label_end) => {
                                let id = h.subrange(href_start, href_end);
                                let label = h.subrange(label_start, label_end);
                                let after = label_end + reference_end().len();
                                let ordinal = id_count(refs, id) + 1;
                                let ref_id = reference_id(id, ordinal);
                                let r = FootnoteRefModel { id, label, ref_id, ordinal };
                                proof {
                                    lemma_find_from(h, reference_start(), p);
                                    lemma_find_from(h, attribute_end(), href_start);
                                    lemma_find_from(h, reference_end(), label_start);
                                }
                                let rest = scan_references(h, after, refs.push(r));
                                (h.subrange(p, start) + reference_html(ref_id, id, label)
                                    + rest.0, rest.1)
                            },
                        }
                    },
                }
            },
        }
    }
}

/// Whether some reference before index `k` points at footnote `id`.
pub open spec fn seen_before(refs: Seq<FootnoteRefModel>, k: int, id: Seq<char>) -> bool {
    exists|j: int| 0 <= j < k && (#[trigger] refs[j]).id == id
}

/// The references to footnote `id`, in order.
pub open spec fn refs_with_id(refs: Seq<FootnoteRefModel>, id: Seq<char>) -> Seq<
    FootnoteRefModel,
>
    decreases refs.len(),
{
    if refs.len() == 0 {
        Seq::<FootnoteRefModel>::empty()
    } else if refs.last().id == id {
        refs_with_id(refs.drop_last(), id).push(refs.last())
    } else {
        refs_with_id(refs.drop_last(), id)
    }
}

pub open spec fn definition_open(id: Seq<char>) -> Seq<char> {
    "<div class=\"footnote-definition\" id=\""@ + id + "\">"@
}

pub open spec fn definition_label(id: Seq<char>, label: Seq<char>) -> Seq<char> {
    definition_open(id) + "<sup class=\"footnote-definition-label\">"@ + label + "</sup>"@
}

pub open spec fn linked_definition_label(id: Seq<char>, label: Seq<char>) -> Seq<char> {
    definition_open(id) + "<sup class=\"footnote-definition-label\"><a href=\"#fnref-"@ + id
        + "\" aria-label=\"본문 각주 "@ + label + "로 돌아가기\">"@ + label + "</a></sup>"@
}

/// The link back to a repeated reference.
pub open spec fn extra_backlink(r: FootnoteRefModel) -> Seq<char> {
    " <a class=\"footnote-backref footnote-backref-extra\" href=\"#"@ + r.ref_id
        + "\" aria-label=\"본문 각주 "@ + r.label + "의 "@ + decimal(r.ordinal)
        + "번째 참조로 돌아가기\">↑"@ + decimal(r.ordinal) + "</a>"@
}

pub open spec fn extra_backlinks(rs: Seq<FootnoteRefModel>) -> Seq<char>
    decreases rs.len(),
{
    if rs.len() == 0 {
        Seq::<char>::empty()
    } else {
        extra_backlinks(rs.drop_last()) + extra_backlink(rs.last())
    }
}

/// All but the first element (nothing for an empty sequence).
pub open spec fn after_first(s: Seq<FootnoteRefModel>) -> Seq<FootnoteRefModel> {
    if s.len() == 0 {
        s
    } else {
        s.drop_first()
    }
}

/// The back-link block placed at the end of the definition's first paragraph:
/// a link to the first reference and one to each repeated reference.
pub open spec fn backlinks(refs: Seq<FootnoteRefModel>, r: FootnoteRefModel) -> Seq<char> {
    " <span class=\"footnote-backrefs\"><a class=\"footnote-backref\" href=\"#"@ + r.ref_id
        + "\" aria-label=\"본문 각주 "@ + r.label + "로 돌아가기\">본문으로 돌아가기 ↑</a>"@
        + extra_backlinks(after_first(refs_with_id(refs, r.id))) + "</span>"@
}

pub open spec fn insert_at(s: Seq<char>, k: int, ins: Seq<char>) -> Seq<char> {
    s.take(k) + ins + s.skip(k)
}

/// The second pass for reference `k`: for the first reference to each
/// footnote whose definition is present, link the definition's label to the
/// reference and add the back-links before the end of the definition's
/// first paragraph.
pub open spec fn link_step(out: Seq<char>, refs: Seq<FootnoteRefModel>, k: int) -> Seq<char> {
    let r = refs[k];
    let def = definition_open(r.id);
    if seen_before(refs, k, r.id) || !contains_seq(out, def) {
        out
    } else {
        let relabeled = replace_first(
            out,
            definition_label(r.id, r.label),
            linked_definition_label(r.id, r.label),
        );
        let search_from = match find_from(relabeled, def, 0) {
            Some(f) => f,
            None => 0,
        };
        match find_from(relabeled, "</p>"@, search_from) {
            Some(close) => insert_at(relabeled, close, backlinks(refs, r)),
            None => relabeled,
        }
    }
}

pub open spec fn link_definitions(out: Seq<char>, refs: Seq<FootnoteRefModel>, k: int) -> Seq<
    char,
>
    decreases k,
{
    if k <= 0 {
        out
    } else {
        link_step(link_definitions(out, refs, k - 1), refs, k - 1)
    }
}

/// The whole footnote pass over `html`.
pub open spec fn footnotes_linked(html: Seq<char>) -> Seq<char> {
    let scanned = scan_references(html, 0, Seq::<FootnoteRefModel>::empty());
    link_definitions(scanned.0, scanned.1, scanned.1.len() as int)
}

fn count_id(refs: &Vec<FootnoteRef>, id: &Vec<char>) -> (n: usize)
    ensures
        n == id_count(refs_view(refs@), id@),
        n <= refs.len(),
{
    let mut n: usize = 0;
    let mut j: usize = 0;
    while j < refs.len()
        invariant
            j <= refs.len(),
            n <= j,
            n == id_count(refs_view(refs@).take(j as int), id@),
        decreases refs.len() - j,
    {
        proof {
            assert(refs_view(refs@).take(j + 1).drop_last() =~= refs_view(refs@).take(j as int));
        }
        if same_chars(&refs[j].id, id) {
            n = n + 1;
        }
        j = j + 1;
    }
    assert(refs_view(refs@).take(refs.len() as int) =~= refs_view(refs@));
    n
}

fn make_reference_id(id: &Vec<char>, ordinal: usize) -> (r: Vec<char>)
    requires
        ordinal >= 1,
    ensures
        r@ == reference_id(id@, ordinal as nat),
{
    let mut ref_id: Vec<char> = str_to_chars("fnref-");
    push_chars(&mut ref_id, id);
    if ordinal != 1 {
        push_str(&mut ref_id, "-");
        push_decimal(&mut ref_id, ordinal);
    }
    assert(ref_id@ =~= reference_id(id@, ordinal as nat));
    ref_id
}

fn push_reference_html(out: &mut Vec<char>, ref_id: &Vec<char>, id: &Vec<char>, label: &Vec<char>)
    ensures
        final(out)@ == old(out)@ + reference_html(ref_id@, id@, label@),
{
    let ghost before = out@;
    push_str(out, "<sup class=\"footnote-reference\" id=\"");
    push_chars(out, ref_id);
    push_str(out, "\"><a href=\"#");
    push_chars(out, id);
    push_str(out, "\" aria-label=\"각주 ");
    push_chars(out, label);
    push_str(out, " 보기\">[");
    push_chars(out, label);
    push_str(out, "]</a></sup>");
    assert(out@ =~= before + reference_html(ref_id@, id@, label@));
}

/// First pass: rewrites each footnote reference and collects them.
fn scan_refs(h: &Vec<char>, out: &mut Vec<char>, refs: &mut Vec<FootnoteRef>)
    requires
        old(out)@.len() == 0,
        old(refs)@.len() == 0,
    ensures
        (final(out)@, refs_view(final(refs)@)) == scan_references(
            h@,
            0,
            Seq::<FootnoteRefModel>::empty(),
        ),
{
    let needle = str_to_chars("<sup class=\"footnote-reference\"><a href=\"#");
    let quote_gt = str_to_chars("\">");
    let close = str_to_chars("</a></sup>");
    let ghost total = scan_references(h@, 0, Seq::<FootnoteRefModel>::empty());
    let mut p: usize = 0;
    assert(refs_view(refs@) =~= Seq::<FootnoteRefModel>::empty());
    assert(out@ =~= Seq::<char>::empty());
    loop
        invariant
            p <= h.len(),
            2 * refs.len() <= p,
            needle@ == reference_start(),
            quote_gt@ == attribute_end(),
            close@ == reference_end(),
            total == scan_references(h@, 0, Seq::<FootnoteRefModel>::empty()),
            total.0 == out@ + scan_references(h@, p as int, refs_view(refs@)).0,
            total.1 == scan_references(h@, p as int, refs_view(refs@)).1,
        decreases h.len() - p,
    {
        let ghost rv = refs_view(refs@);
        let start = match find_chars(h, &needle, p) {
            Some(s) => s,
            None => {
                push_range(out, h, p, h.len());
                assert(h@.skip(p as int) =~= h@.subrange(p as int, h.len() as int));
                return ;
            },
        };
        proof {
            lemma_find_from(h@, needle@, p as int);
        }
        let href_start = start + needle.len();
        let href_end = match find_chars(h, &quote_gt, href_start) {
            Some(e) => e,
            None => {
                push_range(out, h, p, h.len());
                assert(h@.skip(p as int) =~= h@.subrange(p as int, h.len() as int));
                return ;
            },
        };
        proof {
            lemma_find_from(h@, quote_gt@, href_start as int);
            reveal_strlit("\">");
        }
        let label_start = href_end + 2;
        let label_end = match find_chars(h, &close, label_start) {
            Some(e) => e,
            None => {
                push_range(out, h, p, h.len());
                assert(h@.skip(p as int) =~= h@.subrange(p as int, h.len() as int));
                return ;
            },
        };
        proof {
            lemma_find_from(h@, close@, label_start as int);
        }
        let id = copy_range(h, href_start, href_end);
        let label = copy_range(h, label_start, label_end);
        let after = label_end + close.len();
        let ordinal = count_id(refs, &id) + 1;
        let ref_id = make_reference_id(&id, ordinal);
        let ghost before = out@;
        push_range(out, h, p, start);
        push_reference_html(out, &ref_id, &id, &label);
        let ghost model = FootnoteRefModel {
            id: id@,
            label: label@,
            ref_id: ref_id@,
            ordinal: ordinal as nat,
        };
        refs.push(FootnoteRef { id, label, ref_id, ordinal });
        assert(refs_view(refs@) =~= rv.push(model));
        let ghost step = scan_references(h@, after as int, rv.push(model));
        assert(scan_references(h@, p as int, rv) == (h@.subrange(p as int, start as int)
            + reference_html(model.ref_id, model.id, model.label) + step.0, step.1));
        assert(total.0 =~= out@ + step.0);
        p = after;
    }
}

/// Whether some reference before index `k` points at the same footnote as
/// reference `k`.
fn seen_earlier(refs: &Vec<FootnoteRef>, k: usize) -> (r: bool)
    requires
        k < refs.len(),
    ensures
        r == seen_before(refs_view(refs@), k as int, refs@[k as int].id@),
{
    let mut j: usize = 0;
    while j < k
        invariant
            k < refs.len(),
            j <= k,
            forall|q: int| 0 <= q < j ==> refs@[q].id@ != refs@[k as int].id@,
        decreases k - j,
    {
        if same_chars(&refs[j].id, &refs[k].id) {
            assert(refs_view(refs@)[j as int].id == refs@[k as int].id@);
            return true;
        }
        j = j + 1;
    }
    let ghost idk = refs@[k as int].id@;
    assert forall|q: int| 0 <= q < k implies (#[trigger] refs_view(refs@)[q]).id != idk by {}
    false
}

proof fn lemma_refs_with_id_push(refs: Seq<FootnoteRefModel>, id: Seq<char>, j: int)
    requires
        0 <= j < refs.len(),
    ensures
        refs_with_id(refs.take(j + 1), id) == if refs[j].id == id {
            refs_with_id(refs.take(j), id).push(refs[j])
        } else {
            refs_with_id(refs.take(j), id)
        },
{
    assert(refs.take(j + 1).drop_last() =~= refs.take(j));
}

proof fn lemma_skip_one_push(s: Seq<FootnoteRefModel>, x: FootnoteRefModel)
    requires
        s.len() >= 1,
    ensures
        after_first(s.push(x)) == after_first(s).push(x),
{
    assert(after_first(s.push(x)) =~= after_first(s).push(x));
}

/// Appends the links back to the repeated references to footnote `id`.
fn push_extra_backlinks(out: &mut Vec<char>, refs: &Vec<FootnoteRef>, id: &Vec<char>)
    ensures
        final(out)@ == old(out)@ + extra_backlinks(after_first(refs_with_id(refs_view(refs@), id@))),
{
    let ghost out0 = out@;
    let ghost rv = refs_view(refs@);
    let mut seen: usize = 0;
    let mut j: usize = 0;
    while j < refs.len()
        invariant
            rv == refs_view(refs@),
            j <= refs.len(),
            seen == refs_with_id(rv.take(j as int), id@).len(),
            seen <= j,
            out@ == out0 + extra_backlinks(after_first(refs_with_id(rv.take(j as int), id@))),
        decreases refs.len() - j,
    {
        proof {
            lemma_refs_with_id_push(rv, id@, j as int);
        }
        let ghost prev = refs_with_id(rv.take(j as int), id@);
        if same_chars(&refs[j].id, id) {
            let r = &refs[j];
            if seen > 0 {
                let ghost before = out@;
                push_str(out, " <a class=\"footnote-backref footnote-backref-extra\" href=\"#");
                push_chars(out, &r.ref_id);
                push_str(out, "\" aria-label=\"본문 각주 ");
                push_chars(out, &r.label);
                push_str(out, "의 ");
                push_decimal(out, r.ordinal);
                push_str(out, "번째 참조로 돌아가기\">↑");
                push_decimal(out, r.ordinal);
                push_str(out, "</a>");
                proof {
                    lemma_skip_one_push(prev, rv[j as int]);
                    assert(after_first(prev).push(rv[j as int]).drop_last() =~= after_first(prev));
                    assert(out@ =~= before + extra_backlink(rv[j as int]));
                }
            } else {
                assert(prev.len() == 0);
                assert(after_first(prev.push(rv[j as int])) =~= Seq::<FootnoteRefModel>::empty());
            }
            seen = seen + 1;
        }
        j = j + 1;
    }
    assert(rv.take(refs.len() as int) =~= rv);
}

/// Second pass step for reference `k`.
fn link_one(out: Vec<char>, refs: &Vec<FootnoteRef>, k: usize) -> (r: Vec<char>)
    requires
        k < refs.len(),
    ensures
        r@ == link_step(out@, refs_view(refs@), k as int),
{
    let ghost rv = refs_view(refs@);
    if seen_earlier(refs, k) {
        return out;
    }
    let r = &refs[k];
    let mut def: Vec<char> = str_to_chars("<div class=\"footnote-definition\" id=\"");
    push_chars(&mut def, &r.id);
    push_str(&mut def, "\">");
    assert(def@ =~= definition_open(r.id@));
    if find_chars(&out, &def, 0).is_none() {
        return out;
    }
    let mut old_label = copy_range(&def, 0, def.len());
    push_str(&mut old_label, "<sup class=\"footnote-definition-label\">");
    push_chars(&mut old_label, &r.label);
    push_str(&mut old_label, "</sup>");
    assert(def@.subrange(0, def@.len() as int) =~= def@);
    assert(old_label@ =~= definition_label(r.id@, r.label@));
    let mut new_label = copy_range(&def, 0, def.len());
    push_str(&mut new_label, "<sup class=\"footnote-definition-label\"><a href=\"#fnref-");
    push_chars(&mut new_label, &r.id);
    push_str(&mut new_label, "\" aria-label=\"본문 각주 ");
    push_chars(&mut new_label, &r.label);
    push_str(&mut new_label, "로 돌아가기\">");
    push_chars(&mut new_label, &r.label);
    push_str(&mut new_label, "</a></sup>");
    assert(new_label@ =~= linked_definition_label(r.id@, r.label@));
    let relabeled = replace_first_chars(&out, &old_label, &new_label);
    let mut backlink: Vec<char> = str_to_chars(
        " <span class=\"footnote-backrefs\"><a class=\"footnote-backref\" href=\"#",
    );
    push_chars(&mut backlink, &r.ref_id);
    push_str(&mut backlink, "\" aria-label=\"본문 각주 ");
    push_chars(&mut backlink, &r.label);
    push_str(&mut backlink, "로 돌아가기\">본문으로 돌아가기 ↑</a>");
    push_extra_backlinks(&mut backlink, refs, &r.id);
    push_str(&mut backlink, "</span>");
    assert(rv[k as int] == r@);
    assert(backlink@ =~= backlinks(rv, r@));
    let search_from = match find_chars(&relabeled, &def, 0) {
        Some(f) => f,
        None => 0,
    };
    let para_close = str_to_chars("</p>");
    match find_chars(&relabeled, &para_close, search_from) {
        Some(close) => {
            proof {
                lemma_find_from(relabeled@, para_close@, search_from as int);
            }
            let mut res = copy_range(&relabeled, 0, close);
            push_chars(&mut res, &backlink);
            push_range(&mut res, &relabeled, close, relabeled.len());
            assert(res@ =~= insert_at(relabeled@, close as int, backlink@));
            res
        },
        None => relabeled,
    }
}

/// Gives every footnote reference an id (`fnref-<id>`, then
/// `fnref-<id>-<n>` for the n-th reference to the same footnote) and a label,
/// and links each footnote definition back to its references.
pub fn enhance_footnotes(html: &str) -> (r: String)
    ensures
        r@ == footnotes_linked(html@),
{
    let h = str_to_chars(html);
    let mut out: Vec<char> = Vec::new();
    let mut refs: Vec<FootnoteRef> = Vec::new();
    scan_refs(&h, &mut out, &mut refs);
    let ghost rv = refs_view(refs@);
    let mut k: usize = 0;
    while k < refs.len()
        invariant
            rv == refs_view(refs@),
            k <= refs.len(),
            out@ == link_definitions(
                scan_references(h@, 0, Seq::<FootnoteRefModel>::empty()).0,
                rv,
                k as int,
            ),
            rv == scan_references(h@, 0, Seq::<FootnoteRefModel>::empty()).1,
        decreases refs.len() - k,
    {
        out = link_one(out, &refs, k);
        k = k + 1;
    }
    chars_to_string(&out)
}


/// HTML without any footnote reference comes out unchanged.
pub proof fn html_without_references_is_unchanged(html: Seq<char>)
    requires
        !contains_seq(html, reference_start()),
    ensures
        footnotes_linked(html) == html,
{
    assert(html.skip(0) =~= html);
}

/// Every reference is numbered among the references to the same footnote:
/// the n-th reference to footnote `id` has ordinal n and id `fnref-<id>`
/// (n = 1) or `fnref-<id>-<n>`.
pub open spec fn numbered(refs: Seq<FootnoteRefModel>) -> bool {
    forall|j: int|
        0 <= j < refs.len() ==> {
            &&& (#[trigger] refs[j]).ordinal == id_count(refs.take(j + 1), refs[j].id)
            &&& refs[j].ref_id == reference_id(refs[j].id, refs[j].ordinal)
        }
}

proof fn lemma_scan_numbered(h: Seq<char>, p: int, refs: Seq<FootnoteRefModel>)
    requires
        numbered(refs),
    ensures
        numbered(scan_references(h, p, refs).1),
    decreases h.len() - p,
{
    if 0 <= p <= h.len() {
        if let Some(start) = find_from(h, reference_start(), p) {
            let href_start = start + reference_start().len();
            if let Some(href_end) = find_from(h, attribute_end(), href_start) {
                let label_start = href_end + 2;
                if let Some(label_end) = find_from(h, reference_end(), label_start) {
                    lemma_find_from(h, reference_start(), p);
                    lemma_find_from(h, attribute_end(), href_start);
                    lemma_find_from(h, reference_end(), label_start);
                    let id = h.subrange(href_start, href_end);
                    let label = h.subrange(label_start, label_end);
                    let after = label_end + reference_end().len();
                    let ordinal = id_count(refs, id) + 1;
                    let r = FootnoteRefModel {
                        id,
                        label,
                        ref_id: reference_id(id, ordinal),
                        ordinal,
                    };
                    let next = refs.push(r);
                    assert forall|j: int| 0 <= j < next.len() implies {
                        &&& (#[trigger] next[j]).ordinal == id_count(next.take(j + 1), next[j].id)
                        &&& next[j].ref_id == reference_id(next[j].id, next[j].ordinal)
                    } by {
                        if j < refs.len() {
                            assert(next.take(j + 1) =~= refs.take(j + 1));
                        } else {
                            assert(next.take(j + 1) =~= next);
                            assert(next.drop_last() =~= refs);
                        }
                    }
                    lemma_scan_numbered(h, after, next);
                }
            }
        }
    }
}

/// The references the first pass collects are numbered per footnote.
pub proof fn references_are_numbered_per_footnote(html: Seq<char>)
    ensures
        numbered(scan_references(html, 0, Seq::<FootnoteRefModel>::empty()).1),
{
    lemma_scan_numbered(html, 0, Seq::<FootnoteRefModel>::empty());
}

/// A complete footnote reference as pulldown-cmark writes it.
pub open spec fn reference_source(id: Seq<char>, label: Seq<char>) -> Seq<char> {
    reference_start() + id + attribute_end() + label + reference_end()
}

/// `gaps[0] + pieces[0] + gaps[1] + ... + pieces[n - 1] + gaps[n]`.
pub open spec fn interleave(gaps: Seq<Seq<char>>, pieces: Seq<Seq<char>>) -> Seq<char>
    decreases pieces.len(),
{
    if pieces.len() == 0 {
        if gaps.len() > 0 {
            gaps[0]
        } else {
            Seq::<char>::empty()
        }
    } else {
        gaps[0] + pieces[0] + interleave(gaps.drop_first(), pieces.drop_first())
    }
}

pub open spec fn sources(refs: Seq<FootnoteRefModel>) -> Seq<Seq<char>> {
    refs.map_values(|r: FootnoteRefModel| reference_source(r.id, r.label))
}

pub open spec fn rewritten(refs: Seq<FootnoteRefModel>) -> Seq<Seq<char>> {
    refs.map_values(|r: FootnoteRefModel| reference_html(r.ref_id, r.id, r.label))
}

proof fn lemma_occurs_at_subrange(s: Seq<char>, p: Seq<char>, m: int)
    requires
        0 <= m,
        m + p.len() <= s.len(),
        occurs_at(s, p, m),
    ensures
        s.subrange(m, m + p.len() as int) =~= p,
{
}

proof fn lemma_scan_in_place(h: Seq<char>, p: int, refs: Seq<FootnoteRefModel>)
    requires
        0 <= p <= h.len(),
    ensures
        ({
            let (out, all) = scan_references(h, p, refs);
            let found = all.skip(refs.len() as int);
            &&& all.len() >= refs.len()
            &&& all.take(refs.len() as int) == refs
            &&& exists|gaps: Seq<Seq<char>>| {
                &&& gaps.len() == found.len() + 1
                &&& h.skip(p) == interleave(gaps, sources(found))
                &&& out == interleave(gaps, rewritten(found))
            }
        }),
    decreases h.len() - p,
{
    let (out, all) = scan_references(h, p, refs);
    let mut done = false;
    if let Some(start) = find_from(h, reference_start(), p) {
        let href_start = start + reference_start().len();
        if let Some(href_end) = find_from(h, attribute_end(), href_start) {
            let label_start = href_end + 2;
            if let Some(label_end) = find_from(h, reference_end(), label_start) {
                lemma_find_from(h, reference_start(), p);
                lemma_find_from(h, attribute_end(), href_start);
                lemma_find_from(h, reference_end(), label_start);
                let id = h.subrange(href_start, href_end);
                let label = h.subrange(label_start, label_end);
                let after = label_end + reference_end().len();
                let ordinal = id_count(refs, id) + 1;
                let r = FootnoteRefModel { id, label, ref_id: reference_id(id, ordinal), ordinal };
                let next = refs.push(r);
                lemma_scan_in_place(h, after, next);
                let rest = scan_references(h, after, next);
                let found_rest = rest.1.skip(next.len() as int);
                let gaps_rest = choose|gaps: Seq<Seq<char>>| {
                    &&& gaps.len() == found_rest.len() + 1
                    &&& h.skip(after) == interleave(gaps, sources(found_rest))
                    &&& rest.0 == interleave(gaps, rewritten(found_rest))
                };
                let found = all.skip(refs.len() as int);
                assert(all == rest.1);
                assert(all.take(next.len() as int) == next);
                assert forall|i: int| 0 <= i < next.len() implies all[i] == next[i] by {
                    assert(all.take(next.len() as int)[i] == all[i]);
                }
                assert(all.take(refs.len() as int) =~= refs);
                assert(found.len() == found_rest.len() + 1);
                assert(found =~= seq![r] + found_rest) by {
                    assert forall|i: int| 0 <= i < found.len() implies found[i] == (seq![r] + found_rest)[i] by {
                        if i == 0 {
                            assert(all[refs.len() as int] == next[refs.len() as int]);
                        } else {
                            assert(found[i] == all[refs.len() + i]);
                            assert(found_rest[i - 1] == all[next.len() + i - 1]);
                        }
                    }
                }
                let gaps = seq![h.subrange(p, start)] + gaps_rest;
                lemma_occurs_at_subrange(h, reference_start(), start);
                lemma_occurs_at_subrange(h, attribute_end(), href_end);
                lemma_occurs_at_subrange(h, reference_end(), label_end);
                reveal_strlit("\">");
                assert(attribute_end().len() == 2);
                assert(h.subrange(start, href_start) =~= reference_start());
                assert(h.subrange(href_end, label_start) =~= attribute_end());
                assert(h.subrange(label_end, after) =~= reference_end());
                assert(h.subrange(start, after) =~= h.subrange(start, href_start) + id + h.subrange(
                    href_end,
                    label_start,
                ) + label + h.subrange(label_end, after));
                assert(h.subrange(start, after) =~= reference_source(id, label));
                assert(h.skip(p) =~= h.subrange(p, start) + h.subrange(start, after) + h.skip(after));
                assert(sources(found) =~= seq![reference_source(id, label)] + sources(found_rest));
                assert(rewritten(found) =~= seq![reference_html(r.ref_id, id, label)] + rewritten(found_rest));
                assert(gaps.drop_first() =~= gaps_rest);
                assert(sources(found).drop_first() =~= sources(found_rest));
                assert(rewritten(found).drop_first() =~= rewritten(found_rest));
                assert(h.skip(p) =~= interleave(gaps, sources(found)));
                assert(out =~= interleave(gaps, rewritten(found)));
                done = true;
            }
        }
    }
    if !done {
        let found = all.skip(refs.len() as int);
        assert(all == refs);
        assert(all.take(refs.len() as int) =~= refs);
        assert(found.len() == 0);
        let gaps = seq![h.skip(p)];
        assert(h.skip(p) == interleave(gaps, sources(found)));
        assert(out == interleave(gaps, rewritten(found)));
    }
}

/// The first pass rewrites each complete footnote reference in place and
/// changes nothing else: the HTML is a sequence of gaps and references, and
/// the first pass's text is the same gaps with each reference `j` rewritten
/// with its footnote, label and reference id. With
/// `references_are_numbered_per_footnote`, the k-th reference to footnote
/// `d` gets the id `fnref-d` (k = 1) or `fnref-d-k`.
pub proof fn references_are_rewritten_in_place(html: Seq<char>)
    ensures
        ({
            let (out, refs) = scan_references(html, 0, Seq::<FootnoteRefModel>::empty());
            exists|gaps: Seq<Seq<char>>| {
                &&& gaps.len() == refs.len() + 1
                &&& html == interleave(gaps, sources(refs))
                &&& out == interleave(gaps, rewritten(refs))
            }
        }),
{
    let e = Seq::<FootnoteRefModel>::empty();
    lemma_scan_in_place(html, 0, e);
    let all = scan_references(html, 0, e).1;
    assert(all.skip(0) =~= all);
    assert(html.skip(0) =~= html);
}

proof fn lemma_numbered_prefix(refs: Seq<FootnoteRefModel>)
    requires
        numbered(refs),
        refs.len() > 0,
    ensures
        numbered(refs.drop_last()),
{
    let prev = refs.drop_last();
    assert forall|j: int| 0 <= j < prev.len() implies {
        &&& (#[trigger] prev[j]).ordinal == id_count(prev.take(j + 1), prev[j].id)
        &&& prev[j].ref_id == reference_id(prev[j].id, prev[j].ordinal)
    } by {
        assert(prev.take(j + 1) =~= refs.take(j + 1));
        assert(prev[j] == refs[j]);
    }
}

/// In numbered references, the references to one footnote are numbered 1 to
/// n in order, n being how many there are: the k-th has ordinal k and the id
/// `fnref-<id>` (k = 1) or `fnref-<id>-<k>`. So the back-link block of a
/// footnote links to its first reference and, for each k from 2 to n, once to
/// the k-th with the text `↑k`.
pub proof fn references_to_a_footnote_count_from_one(refs: Seq<FootnoteRefModel>, id: Seq<char>)
    requires
        numbered(refs),
    ensures
        refs_with_id(refs, id).len() == id_count(refs, id),
        forall|k: int|
            0 <= k < refs_with_id(refs, id).len() ==> {
                &&& (#[trigger] refs_with_id(refs, id)[k]).id == id
                &&& refs_with_id(refs, id)[k].ordinal == k + 1
                &&& refs_with_id(refs, id)[k].ref_id == reference_id(id, (k + 1) as nat)
            },
    decreases refs.len(),
{
    if refs.len() > 0 {
        lemma_numbered_prefix(refs);
        references_to_a_footnote_count_from_one(refs.drop_last(), id);
        let n = refs.len() - 1;
        assert(refs.take(n + 1) =~= refs);
        assert(refs[n] == refs.last());
        let prev = refs_with_id(refs.drop_last(), id);
        let cur = refs_with_id(refs, id);
        if refs.last().id == id {
            assert forall|k: int| 0 <= k < cur.len() implies {
                &&& (#[trigger] cur[k]).id == id
                &&& cur[k].ordinal == k + 1
                &&& cur[k].ref_id == reference_id(id, (k + 1) as nat)
            } by {
                if k < prev.len() {
                    assert(cur[k] == prev[k]);
                }
            }
        }
    }
}

proof fn lemma_occurs_then_found(s: Seq<char>, p: Seq<char>, m: int)
    requires
        0 <= m,
        occurs_at(s, p, m),
    ensures
        find_from(s, p, 0) is Some,
{
    lemma_find_from(s, p, 0);
}

proof fn lemma_unseen_count(refs: Seq<FootnoteRefModel>, k: int, id: Seq<char>)
    requires
        0 <= k <= refs.len(),
        !seen_before(refs, k, id),
    ensures
        id_count(refs.take(k), id) == 0,
    decreases k,
{
    if k > 0 {
        assert(refs.take(k).drop_last() =~= refs.take(k - 1));
        assert(refs.take(k).last() == refs[k - 1]);
        assert(!seen_before(refs, k - 1, id)) by {
            if seen_before(refs, k - 1, id) {
                let j = choose|j: int| 0 <= j < k - 1 && (#[trigger] refs[j]).id == id;
                assert(0 <= j < k && refs[j].id == id);
            }
        }
        lemma_unseen_count(refs, k - 1, id);
    }
}

/// The second pass at the first reference to a footnote whose plain
/// definition label is in the text, whatever was linked before: the first
/// such label becomes the label linked back to the reference, and when a
/// `</p>` follows the definition the back-link block is inserted there;
/// nothing else changes. With numbered references the block links to the
/// footnote's first reference, `fnref-<id>`.
pub proof fn first_reference_links_its_definition(out: Seq<char>, refs: Seq<FootnoteRefModel>, k: int)
    requires
        0 <= k < refs.len(),
        !seen_before(refs, k, refs[k].id),
        contains_seq(out, definition_label(refs[k].id, refs[k].label)),
    ensures
        ({
            let r = refs[k];
            let x = replace_first(out, definition_label(r.id, r.label), linked_definition_label(r.id, r.label));
            let def_at = match find_from(x, definition_open(r.id), 0) {
                Some(f) => f,
                None => 0,
            };
            &&& x != out
            &&& contains_seq(x, linked_definition_label(r.id, r.label))
            &&& link_step(out, refs, k) == match find_from(x, "</p>"@, def_at) {
                Some(q) => x.take(q) + backlinks(refs, r) + x.skip(q),
                None => x,
            }
            &&& numbered(refs) ==> r.ref_id == reference_id(r.id, 1)
        }),
{
    let r = refs[k];
    let dl = definition_label(r.id, r.label);
    let ll = linked_definition_label(r.id, r.label);
    let def = definition_open(r.id);
    lemma_find_from(out, dl, 0);
    let f = find_from(out, dl, 0)->0;
    assert(out.subrange(f, f + dl.len()) == dl);
    assert(out.subrange(f, f + def.len()) =~= def) by {
        assert forall|i: int| 0 <= i < def.len() implies out.subrange(f, f + def.len())[i] == def[i] by {
            assert(out.subrange(f, f + dl.len())[i] == dl[i]);
        }
    }
    assert(occurs_at(out, def, f));
    lemma_occurs_then_found(out, def, f);
    let x = replace_first(out, dl, ll);
    assert(x == out.take(f) + ll + out.skip(f + dl.len()));
    assert(x.subrange(f, f + ll.len()) =~= ll);
    assert(occurs_at(x, ll, f));
    lemma_occurs_then_found(x, ll, f);
    reveal_strlit("<sup class=\"footnote-definition-label\">");
    reveal_strlit("<sup class=\"footnote-definition-label\"><a href=\"#fnref-");
    reveal_strlit("</sup>");
    reveal_strlit("</a></sup>");
    assert(ll.len() > dl.len());
    assert(x.len() > out.len());
    if numbered(refs) {
        assert(refs[k].ordinal == id_count(refs.take(k + 1), refs[k].id));
        lemma_unseen_count(refs, k, r.id);
        assert(refs.take(k + 1).drop_last() =~= refs.take(k));
        assert(refs.take(k + 1).last() == r);
    }
}

/// The whole footnote pass is the first pass followed by the second-pass
/// step at every reference in document order: none is skipped, whatever
/// footnotes came before.
pub proof fn second_pass_steps_through_every_reference(html: Seq<char>, k: int)
    requires
        0 <= k < scan_references(html, 0, Seq::<FootnoteRefModel>::empty()).1.len(),
    ensures
        ({
            let (out, refs) = scan_references(html, 0, Seq::<FootnoteRefModel>::empty());
            &&& link_definitions(out, refs, k + 1) == link_step(link_definitions(out, refs, k), refs, k)
            &&& link_definitions(out, refs, 0) == out
            &&& footnotes_linked(html) == link_definitions(out, refs, refs.len() as int)
        }),
{
}

/// In the whole footnote pass, the first reference to each footnote links
/// that footnote's definition, whatever footnotes were linked before it:
/// when the text reached before its step still holds the definition's
/// plain label, the text after its step holds the label linked back to the
/// reference (`fnref-<id>` for numbered references).
pub proof fn every_footnote_gets_linked_in_its_turn(html: Seq<char>, k: int)
    requires
        0 <= k < scan_references(html, 0, Seq::<FootnoteRefModel>::empty()).1.len(),
        ({
            let (out, refs) = scan_references(html, 0, Seq::<FootnoteRefModel>::empty());
            &&& !seen_before(refs, k, refs[k].id)
            &&& contains_seq(link_definitions(out, refs, k), definition_label(refs[k].id, refs[k].label))
        }),
    ensures
        ({
            let (out, refs) = scan_references(html, 0, Seq::<FootnoteRefModel>::empty());
            let r = refs[k];
            &&& link_definitions(out, refs, k + 1) != link_definitions(out, refs, k)
            &&& r.ref_id == reference_id(r.id, 1)
            &&& link_definitions(out, refs, k + 1) == match find_from(
                replace_first(link_definitions(out, refs, k), definition_label(r.id, r.label), linked_definition_label(r.id, r.label)),
                "</p>"@,
                match find_from(
                    replace_first(link_definitions(out, refs, k), definition_label(r.id, r.label), linked_definition_label(r.id, r.label)),
                    definition_open(r.id),
                    0,
                ) {
                    Some(f) => f,
                    None => 0,
                },
            ) {
                Some(q) => {
                    let x = replace_first(link_definitions(out, refs, k), definition_label(r.id, r.label), linked_definition_label(r.id, r.label));
                    x.take(q) + backlinks(refs, r) + x.skip(q)
                },
                None => replace_first(link_definitions(out, refs, k), definition_label(r.id, r.label), linked_definition_label(r.id, r.label)),
            }
        }),
{
    let (out, refs) = scan_references(html, 0, Seq::<FootnoteRefModel>::empty());
    references_are_numbered_per_footnote(html);
    let cur = link_definitions(out, refs, k);
    first_reference_links_its_definition(cur, refs, k);
    let r = refs[k];
    let x = replace_first(cur, definition_label(r.id, r.label), linked_definition_label(r.id, r.label));
    let def_at = match find_from(x, definition_open(r.id), 0) {
        Some(f) => f,
        None => 0,
    };
    match find_from(x, "</p>"@, def_at) {
        Some(q) => {
            lemma_find_from(x, "</p>"@, def_at);
            reveal_strlit("</span>");
            assert(backlinks(refs, r).len() > 0);
            assert((x.take(q) + backlinks(refs, r) + x.skip(q)).len() > x.len());
            assert(x.len() > cur.len()) by {
                assert(x != cur);
                lemma_find_from(cur, definition_label(r.id, r.label), 0);
                reveal_strlit("<sup class=\"footnote-definition-label\">");
                reveal_strlit("<sup class=\"footnote-definition-label\"><a href=\"#fnref-");
                reveal_strlit("</sup>");
                reveal_strlit("</a></sup>");
            }
        },
        None => {},
    }
}

proof fn lemma_extra_backlinks_flat(ss: Seq<FootnoteRefModel>)
    ensures
        extra_backlinks(ss) == Seq::new(ss.len(), |j: int| extra_backlink(ss[j])).flatten(),
    decreases ss.len(),
{
    let f = Seq::new(ss.len(), |j: int| extra_backlink(ss[j]));
    if ss.len() == 0 {
        assert(f =~= Seq::<Seq<char>>::empty());
    } else {
        let d = ss.drop_last();
        lemma_extra_backlinks_flat(d);
        let g = Seq::new(d.len(), |j: int| extra_backlink(d[j]));
        assert(f =~= g.push(extra_backlink(ss.last())));
        g.lemma_flatten_push(extra_backlink(ss.last()));
    }
}

/// The back-link link to the `ordinal`-th reference (2 or more) to footnote
/// `id`, whose label is `label`.
pub open spec fn repeated_reference_link(id: Seq<char>, label: Seq<char>, ordinal: nat) -> Seq<char> {
    " <a class=\"footnote-backref footnote-backref-extra\" href=\"#fnref-"@ + id + "-"@ + decimal(ordinal)
        + "\" aria-label=\"본문 각주 "@ + label + "의 "@ + decimal(ordinal) + "번째 참조로 돌아가기\">↑"@
        + decimal(ordinal) + "</a>"@
}

/// The back-link block of a footnote with numbered references links first
/// to its first reference (`#fnref-<id>`, "본문으로 돌아가기 ↑") and then, in
/// order, once to each further reference k = 2, 3, ... (`#fnref-<id>-<k>`,
/// "↑k"), and to nothing else.
pub proof fn backlink_block_links_every_reference(refs: Seq<FootnoteRefModel>, id: Seq<char>)
    requires
        numbered(refs),
        refs_with_id(refs, id).len() > 0,
    ensures
        ({
            let rs = refs_with_id(refs, id);
            let r = rs[0];
            backlinks(refs, r) == " <span class=\"footnote-backrefs\"><a class=\"footnote-backref\" href=\"#fnref-"@
                + id + "\" aria-label=\"본문 각주 "@ + r.label + "로 돌아가기\">본문으로 돌아가기 ↑</a>"@
                + Seq::new((rs.len() - 1) as nat, |j: int| repeated_reference_link(id, rs[j + 1].label, (j + 2) as nat)).flatten()
                + "</span>"@
        }),
{
    let rs = refs_with_id(refs, id);
    references_to_a_footnote_count_from_one(refs, id);
    let r = rs[0];
    assert(r.id == id);
    assert(r.ref_id == reference_id(id, 1));
    let ss = after_first(rs);
    assert(ss =~= rs.drop_first());
    lemma_extra_backlinks_flat(ss);
    reveal_strlit(" <a class=\"footnote-backref footnote-backref-extra\" href=\"#");
    reveal_strlit(" <a class=\"footnote-backref footnote-backref-extra\" href=\"#fnref-");
    reveal_strlit("fnref-");
    reveal_strlit(" <span class=\"footnote-backrefs\"><a class=\"footnote-backref\" href=\"#");
    reveal_strlit(" <span class=\"footnote-backrefs\"><a class=\"footnote-backref\" href=\"#fnref-");
    let f = Seq::new(ss.len(), |j: int| extra_backlink(ss[j]));
    let g = Seq::new((rs.len() - 1) as nat, |j: int| repeated_reference_link(id, rs[j + 1].label, (j + 2) as nat));
    assert forall|j: int| 0 <= j < ss.len() implies f[j] == g[j] by {
        assert(ss[j] == rs[j + 1]);
        assert(rs[j + 1].ordinal == j + 2);
        assert(rs[j + 1].ref_id == reference_id(id, (j + 2) as nat));
        assert(reference_id(id, (j + 2) as nat) == "fnref-"@ + id + "-"@ + decimal((j + 2) as nat));
        assert(f[j] =~= g[j]);
    }
    assert(f =~= g);
    assert(backlinks(refs, r) =~= " <span class=\"footnote-backrefs\"><a class=\"footnote-backref\" href=\"#fnref-"@
        + id + "\" aria-label=\"본문 각주 "@ + r.label + "로 돌아가기\">본문으로 돌아가기 ↑</a>"@ + g.flatten()
        + "</span>"@);
}

} // verus!
