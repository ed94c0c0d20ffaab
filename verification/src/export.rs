use vstd::prelude::*;
use crate::codec::{
    render_doc, render_docs_inner, render_array, render_doc_into, doc_wf, docs_wf, B_LBRACKET,
    B_RBRACKET, B_COMMA,
};
use crate::doc::{Doc, DocModel, doc_views};
use crate::plan::{spec_effective_page_size, effective_page_size};

verus! {

/// Appending one document extends the comma-separated run: the first
/// document stands alone, every later one follows a comma.
pub proof fn lemma_inner_snoc(ds: Seq<DocModel>, d: DocModel)
    ensures
        ds.len() == 0 ==> render_docs_inner(ds.push(d)) == render_doc(d),
        ds.len() > 0 ==> render_docs_inner(ds.push(d)) == render_docs_inner(ds) + seq![B_COMMA]
            + render_doc(d),
{
    let p = ds.push(d);
    assert(p.drop_last() =~= ds);
    assert(p.last() == d);
    if ds.len() == 0 {
        assert(p.len() == 1);
        assert(p[0] == d);
    }
}

/// What the export of one collection begins with: an empty collection is
/// complete at once, without a cursor; any other opens a cursor asking for
/// the effective page size.
pub enum ExportStart {
    EmptyCollection,
    OpenCursor { page_size: u64 },
}

/// Decide how the export of a collection with `doc_count` documents
/// starts, given the configured page size and the detected cluster
/// version.
pub fn plan_export(doc_count: u64, configured_page: u64, version: &Vec<u8>) -> (r: ExportStart)
    ensures
        r == if doc_count == 0 {
            ExportStart::EmptyCollection
        } else {
            ExportStart::OpenCursor {
                page_size: spec_effective_page_size(configured_page, version@),
            }
        },
{
    if doc_count == 0 {
        ExportStart::EmptyCollection
    } else {
        ExportStart::OpenCursor { page_size: effective_page_size(configured_page, version) }
    }
}

pub enum ExportPhase {
    Streaming,
    Finished,
    Aborted,
}

/// One collection's paginated export. The session turns pages of reduced
/// documents into the byte runs of the export file; the caller performs
/// the cursor requests and writes each returned run. The cursor token is
/// held by the session and replaced on every continuation, so a stale
/// token can never be presented again; it leaves the session only on
/// `finish` or `abort`, for the best-effort release.
pub struct ExportSession {
    /// Progress bound: the document count observed when the task started.
    pub target: u64,
    /// Documents emitted so far.
    pub written: u64,
    /// Whether the last page was non-empty, so a continuation is due.
    pub more: bool,
    pub phase: ExportPhase,
    /// The single-use cursor token for the next continuation.
    pub scroll_id: Option<Vec<u8>>,
    /// Every document emitted, in arrival order.
    pub docs: Ghost<Seq<DocModel>>,
    /// Every byte handed to the caller, in order.
    pub emitted: Ghost<Seq<u8>>,
}

impl ExportSession {
    /// The session invariant: while streaming, the bytes handed out are
    /// the opening bracket followed by the comma-separated run of the
    /// documents seen; when finished, they form the complete array.
    pub open spec fn wf(self) -> bool {
        match self.phase {
            ExportPhase::Streaming => {
                &&& self.scroll_id is Some
                &&& self.emitted@ == seq![B_LBRACKET] + render_docs_inner(self.docs@)
                &&& docs_wf(self.docs@)
                &&& self.written == self.docs@.len()
                &&& (self.more ==> self.docs@.len() > 0)
            },
            ExportPhase::Finished => {
                &&& self.scroll_id is None
                &&& self.emitted@ == render_array(self.docs@)
                &&& docs_wf(self.docs@)
                &&& self.written == self.docs@.len()
            },
            ExportPhase::Aborted => true,
        }
    }

    /// Open the session from the first page of the cursor, producing the
    /// opening bracket and the page's documents.
    pub fn open(target: u64, token: Vec<u8>, page: Vec<Doc>) -> (r: (ExportSession, Vec<u8>))
        requires
            docs_wf(doc_views(page@)),
            page@.len() <= u64::MAX,
        ensures
            r.0.wf(),
            r.0.phase == ExportPhase::Streaming,
            r.0.target == target,
            r.0.written == page@.len(),
            r.0.more == (page@.len() > 0),
            r.0.docs@ == doc_views(page@),
            r.0.emitted@ == r.1@,
            (r.0.scroll_id matches Some(t) && t@ == token@),
            r.1@ == seq![B_LBRACKET] + render_docs_inner(doc_views(page@)),
    {
        let mut out: Vec<u8> = Vec::new();
        out.push(B_LBRACKET);
        let written = append_page_docs(&mut out, &page, true);
        let sess = ExportSession {
            target,
            written,
            more: written > 0,
            phase: ExportPhase::Streaming,
            scroll_id: Some(token),
            docs: Ghost(doc_views(page@)),
            emitted: Ghost(out@),
        };
        (sess, out)
    }

    /// Record a continuation: the new token replaces the spent one, the
    /// page's documents are appended, each after a comma; an empty page
    /// means the stream is exhausted.
    pub fn continue_page(&mut self, new_token: Vec<u8>, page: Vec<Doc>) -> (chunk: Vec<u8>)
        requires
            old(self).wf(),
            old(self).phase == ExportPhase::Streaming,
            old(self).more,
            docs_wf(doc_views(page@)),
            old(self).written + page@.len() <= u64::MAX,
        ensures
            final(self).wf(),
            final(self).phase == ExportPhase::Streaming,
            final(self).target == old(self).target,
            final(self).written == old(self).written + page@.len(),
            final(self).more == (page@.len() > 0),
            final(self).docs@ == old(self).docs@ + doc_views(page@),
            final(self).emitted@ == old(self).emitted@ + chunk@,
            (final(self).scroll_id matches Some(t) && t@ == new_token@),
    {
        let mut chunk: Vec<u8> = Vec::new();
        let ghost prior = self.docs@;
        let added = append_page_docs_after(&mut chunk, &page, Ghost(prior));
        self.scroll_id = Some(new_token);
        self.written = self.written + added;
        self.more = added > 0;
        proof {
            lemma_docs_wf_append(prior, doc_views(page@));
            self.docs@ = prior + doc_views(page@);
            assert(self.emitted@ + chunk@ =~= seq![B_LBRACKET] + render_docs_inner(self.docs@));
            self.emitted@ = self.emitted@ + chunk@;
        }
        chunk
    }

    /// Close the array: the final bracket is produced and the spent
    /// cursor token leaves the session for its best-effort release.
    pub fn finish(&mut self) -> (r: (Vec<u8>, Vec<u8>))
        requires
            old(self).wf(),
            old(self).phase == ExportPhase::Streaming,
        ensures
            final(self).wf(),
            final(self).phase == ExportPhase::Finished,
            final(self).target == old(self).target,
            final(self).written == old(self).written,
            final(self).docs@ == old(self).docs@,
            final(self).scroll_id is None,
            r.0@ == seq![B_RBRACKET],
            final(self).emitted@ == old(self).emitted@ + r.0@,
            final(self).emitted@ == render_array(final(self).docs@),
            (old(self).scroll_id matches Some(t) ==> r.1@ == t@),
    {
        let mut chunk: Vec<u8> = Vec::new();
        chunk.push(B_RBRACKET);
        let token = match self.scroll_id.take() {
            Some(t) => t,
            None => Vec::new(),
        };
        self.phase = ExportPhase::Finished;
        proof {
            self.emitted@ = self.emitted@ + chunk@;
            assert(self.emitted@ =~= render_array(self.docs@));
        }
        (chunk, token)
    }

    /// Abandon the export after a failed continuation: the session makes
    /// no further claim about the file, and the spent token leaves for
    /// its best-effort release.
    pub fn abort(&mut self) -> (token: Option<Vec<u8>>)
        ensures
            final(self).phase == ExportPhase::Aborted,
            final(self).wf(),
            (old(self).scroll_id matches Some(t) ==> (token matches Some(u) && u@ == t@)),
            old(self).scroll_id is None ==> token is None,
    {
        self.phase = ExportPhase::Aborted;
        self.scroll_id.take()
    }

    /// Documents emitted so far, the unit of progress reporting.
    pub fn written(&self) -> (r: u64)
        ensures
            r == self.written,
    {
        self.written
    }

    /// Whether the last page was non-empty, so a continuation is due.
    pub fn wants_more(&self) -> (r: bool)
        ensures
            r == self.more,
    {
        self.more
    }
}

/// Append a page's documents to `out` as a comma-separated run. With
/// `opening` the run starts fresh (no comma before the first document);
/// the result is the page length, and `out` grows by exactly the render
/// of the page appended to an empty run.
fn append_page_docs(out: &mut Vec<u8>, page: &Vec<Doc>, opening: bool) -> (n: u64)
    requires
        opening,
        docs_wf(doc_views(page@)),
        page@.len() <= u64::MAX,
    ensures
        n == page@.len(),
        final(out)@ == old(out)@ + render_docs_inner(doc_views(page@)),
{
    let mut i: usize = 0;
    while i < page.len()
        invariant
            i <= page@.len(),
            docs_wf(doc_views(page@)),
            out@ == old(out)@ + render_docs_inner(doc_views(page@.take(i as int))),
        decreases page@.len() - i,
    {
        proof {
            lemma_views_take_snoc(page@, i as int);
            lemma_inner_snoc(doc_views(page@.take(i as int)), page@[i as int]@);
            assert(doc_views(page@)[i as int] == page@[i as int]@);
        }
        if i > 0 {
            out.push(B_COMMA);
        }
        render_doc_into(out, &page[i]);
        i = i + 1;
    }
    proof {
        assert(page@.take(page@.len() as int) =~= page@);
    }
    page.len() as u64
}

/// Append a page's documents as continuations of a non-empty run: every
/// document, the first included, follows a comma.
fn append_page_docs_after(out: &mut Vec<u8>, page: &Vec<Doc>, prior: Ghost<Seq<DocModel>>) -> (n: u64)
    requires
        old(out)@.len() == 0,
        prior@.len() > 0,
        docs_wf(doc_views(page@)),
        page@.len() <= u64::MAX,
    ensures
        n == page@.len(),
        render_docs_inner(prior@) + final(out)@ == render_docs_inner(prior@ + doc_views(page@)),
{
    proof {
        assert(page@.take(0) =~= Seq::<Doc>::empty());
        assert(doc_views(page@.take(0)) =~= Seq::<DocModel>::empty());
        assert(prior@ + doc_views(page@.take(0)) =~= prior@);
    }
    let mut i: usize = 0;
    while i < page.len()
        invariant
            i <= page@.len(),
            prior@.len() > 0,
            docs_wf(doc_views(page@)),
            render_docs_inner(prior@) + out@ == render_docs_inner(
                prior@ + doc_views(page@.take(i as int)),
            ),
        decreases page@.len() - i,
    {
        proof {
            lemma_views_take_snoc(page@, i as int);
            lemma_inner_snoc(prior@ + doc_views(page@.take(i as int)), page@[i as int]@);
            assert((prior@ + doc_views(page@.take(i as int))).push(page@[i as int]@) =~= prior@
                + doc_views(page@.take(i + 1)));
            assert(doc_views(page@)[i as int] == page@[i as int]@);
        }
        out.push(B_COMMA);
        render_doc_into(out, &page[i]);
        i = i + 1;
    }
    proof {
        assert(page@.take(page@.len() as int) =~= page@);
    }
    page.len() as u64
}

/// Well-formedness of documents carries over concatenation.
proof fn lemma_docs_wf_append(a: Seq<DocModel>, b: Seq<DocModel>)
    requires
        docs_wf(a),
        docs_wf(b),
    ensures
        docs_wf(a + b),
{
    assert forall|i: int| 0 <= i < (a + b).len() implies doc_wf(#[trigger] (a + b)[i]) by {
        if i < a.len() {
            assert((a + b)[i] == a[i]);
        } else {
            assert((a + b)[i] == b[i - a.len()]);
        }
    }
}

/// Taking one more element of a page extends the taken views by that
/// element's view.
proof fn lemma_views_take_snoc(page: Seq<Doc>, i: int)
    requires
        0 <= i < page.len(),
    ensures
        doc_views(page.take(i + 1)) == doc_views(page.take(i)).push(page[i]@),
{
    assert(doc_views(page.take(i + 1)) =~= doc_views(page.take(i)).push(page[i]@));
}

/// A plan's sum, decomposed from the front.
proof fn lemma_sum_front(s: Seq<u64>)
    requires
        s.len() > 0,
    ensures
        crate::plan::seq_u64_sum(s) == s[0] + crate::plan::seq_u64_sum(s.drop_first()),
    decreases s.len(),
{
    if s.len() == 1 {
        assert(s.drop_last() =~= s.drop_first());
    } else {
        let dl = s.drop_last();
        lemma_sum_front(dl);
        assert(dl[0] == s[0]);
        assert(s.drop_first().drop_last() =~= dl.drop_first());
        assert(s.drop_first().last() == s.last());
    }
}

/// An export whose pages arrive with the planned lengths delivers exactly
/// the counted documents: the output array holds as many documents as the
/// page lengths sum to, which for the page plan is the document count
/// observed at start, over the plan's ceiling number of pages.
pub proof fn lemma_pages_deliver_count(plan: Seq<u64>, pages: Seq<Seq<DocModel>>)
    requires
        plan.len() == pages.len(),
        forall|i: int| 0 <= i < pages.len() ==> #[trigger] pages[i].len() == plan[i],
    ensures
        pages.flatten().len() == crate::plan::seq_u64_sum(plan),
    decreases pages.len(),
{
    if pages.len() == 0 {
        assert(crate::plan::seq_u64_sum(plan) == 0);
    } else {
        lemma_sum_front(plan);
        assert(pages.flatten() == pages.first() + pages.drop_first().flatten());
        assert forall|i: int| 0 <= i < pages.drop_first().len() implies #[trigger] pages.drop_first(
        )[i].len() == plan.drop_first()[i] by {
            assert(pages.drop_first()[i] == pages[i + 1]);
            assert(plan.drop_first()[i] == plan[i + 1]);
        }
        lemma_pages_deliver_count(plan.drop_first(), pages.drop_first());
        assert(pages[0].len() == plan[0]);
    }
}

} // verus!
