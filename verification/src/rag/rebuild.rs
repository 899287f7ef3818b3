//! Rebuilding the index.
//!
//! The documents of the data directory are read and embedded afresh, and the
//! uploads that are stored are embedded again from their chunks. Only when
//! everything is at hand is the store replaced, in one transaction, so that a
//! rebuild that fails leaves all as it was.
use vstd::prelude::*;

use crate::rag::chunk::document_chunks;
use crate::rag::chunk_laws::chunks_fit;
use crate::rag::system::{uploads, uploads_of, Document, DocumentView, RagSystem};
use crate::rag::types::{ChunkView, RagConfigView, StoredChunk};
use crate::text::all_white;

verus! {

// ── The state ────────────────────────────────────────────────────────────────

/// How far a rebuild has come.
#[derive(Debug, Clone, Copy, PartialEq, Eq, Structural)]
pub enum Phase {
    /// The chunks of a document are being prepared.
    Documents,
    /// The chunks of the uploads are being prepared.
    Uploads,
    /// The store is being replaced.
    Writing,
    /// The store has been replaced.
    Done,
    /// The rebuild was given up.
    Failed,
}

/// What a rebuild asks for next.
#[derive(Debug)]
pub enum RebuildAction {
    /// Get the vectors of these chunks, if a model is loaded, and hold them.
    Prepare(Vec<StoredChunk>),
    /// Replace all that is stored by these chunks, in one transaction.
    Replace(Vec<StoredChunk>),
    /// The rebuild is done; so many chunks are stored.
    Finish(usize),
    /// The rebuild has failed; nothing is changed.
    GiveUp,
}

/// What a [`RebuildAction`] stands for.
#[verifier::ext_equal]
pub enum RebuildActionView {
    Prepare(Seq<ChunkView>),
    Replace(Seq<ChunkView>),
    Finish(int),
    GiveUp,
}

impl View for RebuildAction {
    type V = RebuildActionView;

    open spec fn view(&self) -> RebuildActionView {
        match self {
            RebuildAction::Prepare(c) => RebuildActionView::Prepare(c.deep_view()),
            RebuildAction::Replace(c) => RebuildActionView::Replace(c.deep_view()),
            RebuildAction::Finish(n) => RebuildActionView::Finish(*n as int),
            RebuildAction::GiveUp => RebuildActionView::GiveUp,
        }
    }
}

/// A rebuild under way.
pub struct Rebuild {
    docs: Vec<Vec<StoredChunk>>,
    next: usize,
    snapshot: Vec<StoredChunk>,
    fresh: Vec<String>,
    uploads: Vec<StoredChunk>,
    ready: Vec<StoredChunk>,
    phase: Phase,
}

/// What a [`Rebuild`] stands for.
#[verifier::ext_equal]
pub struct RebuildView {
    /// The chunks of the documents that were read, document by document.
    pub docs: Seq<Seq<ChunkView>>,
    /// How many documents have been prepared or passed over.
    pub next: int,
    /// What was stored when the rebuild started.
    pub snapshot: Seq<ChunkView>,
    /// The sources of the documents that were prepared.
    pub fresh: Seq<Seq<char>>,
    /// What has to be stored again of the snapshot, once that is known.
    pub uploads: Seq<ChunkView>,
    /// The chunks that are prepared.
    pub ready: Seq<ChunkView>,
    pub phase: Phase,
}

impl View for Rebuild {
    type V = RebuildView;

    closed spec fn view(&self) -> RebuildView {
        RebuildView {
            docs: self.docs.deep_view(),
            next: self.next as int,
            snapshot: self.snapshot.deep_view(),
            fresh: self.fresh.deep_view(),
            uploads: self.uploads.deep_view(),
            ready: self.ready.deep_view(),
            phase: self.phase,
        }
    }
}

impl Rebuild {
    #[verifier::type_invariant]
    spec fn inv(self) -> bool {
        &&& self.next <= self.docs@.len()
        &&& self.phase == Phase::Documents ==> self.next < self.docs@.len()
        &&& forall|i: int| 0 <= i < self.docs@.len() ==> (#[trigger] self.docs@[i])@.len() > 0
    }
}

// ── Steps ────────────────────────────────────────────────────────────────────

/// What a rebuild asks for.
pub open spec fn action_of(s: RebuildView) -> RebuildActionView {
    match s.phase {
        Phase::Documents => RebuildActionView::Prepare(s.docs[s.next]),
        Phase::Uploads => RebuildActionView::Prepare(s.uploads),
        Phase::Writing => RebuildActionView::Replace(s.ready),
        Phase::Done => RebuildActionView::Finish(s.ready.len() as int),
        Phase::Failed => RebuildActionView::GiveUp,
    }
}

/// The rebuild with its next phase: the next document, if there is one; then the
/// uploads, if there are any; then the write.
pub open spec fn onward(s: RebuildView) -> RebuildView {
    if s.next < s.docs.len() {
        RebuildView { phase: Phase::Documents, ..s }
    } else {
        let ups = uploads_of(s.snapshot, s.fresh);
        RebuildView {
            uploads: ups,
            phase: if ups.len() > 0 {
                Phase::Uploads
            } else {
                Phase::Writing
            },
            ..s
        }
    }
}

/// The rebuild after what it asked for succeeded or failed. A document that
/// cannot be prepared is passed over, and what is stored of it is kept; any other
/// failure ends the rebuild.
pub open spec fn after(s: RebuildView, ok: bool) -> RebuildView {
    match s.phase {
        Phase::Documents => onward(
            RebuildView {
                next: s.next + 1,
                fresh: if ok {
                    s.fresh.push(s.docs[s.next][0].source)
                } else {
                    s.fresh
                },
                ready: if ok {
                    s.ready + s.docs[s.next]
                } else {
                    s.ready
                },
                ..s
            },
        ),
        Phase::Uploads => if ok {
            RebuildView { ready: s.ready + s.uploads, phase: Phase::Writing, ..s }
        } else {
            RebuildView { phase: Phase::Failed, ..s }
        },
        Phase::Writing => RebuildView {
            phase: if ok {
                Phase::Done
            } else {
                Phase::Failed
            },
            ..s
        },
        Phase::Done => s,
        Phase::Failed => s,
    }
}

/// The chunks of the documents that hold text, document by document.
pub open spec fn chunked(cfg: RagConfigView, files: Seq<DocumentView>, now: i64) -> Seq<
    Seq<ChunkView>,
>
    decreases files.len(),
{
    if files.len() == 0 {
        Seq::empty()
    } else {
        let before = chunked(cfg, files.drop_last(), now);
        let f = files.last();
        if all_white(f.content) {
            before
        } else {
            before.push(document_chunks(cfg, f.source, f.content, now))
        }
    }
}

/// A rebuild of documents and a snapshot, at its start.
pub open spec fn started(docs: Seq<Seq<ChunkView>>, snapshot: Seq<ChunkView>) -> RebuildView {
    onward(
        RebuildView {
            docs: docs,
            next: 0,
            snapshot: snapshot,
            fresh: Seq::empty(),
            uploads: Seq::empty(),
            ready: Seq::empty(),
            phase: Phase::Documents,
        },
    )
}

fn copies(chunks: &Vec<StoredChunk>) -> (r: Vec<StoredChunk>)
    ensures
        r.deep_view() == chunks.deep_view(),
{
    let mut r: Vec<StoredChunk> = Vec::new();
    let mut i: usize = 0;
    while i < chunks.len()
        invariant
            i <= chunks@.len(),
            r@.len() == i,
            forall|k: int| 0 <= k < i ==> (#[trigger] r@[k])@ == chunks@[k]@,
        decreases chunks@.len() - i,
    {
        r.push(chunks[i].clone());
        i = i + 1;
    }
    proof {
        assert(r.deep_view() =~= chunks.deep_view());
    }
    r
}

fn add_copies(r: &mut Vec<StoredChunk>, chunks: &Vec<StoredChunk>)
    ensures
        final(r).deep_view() == old(r).deep_view() + chunks.deep_view(),
{
    let ghost before = r.deep_view();
    let mut more = copies(chunks);
    let ghost m = more.deep_view();
    r.append(&mut more);
    proof {
        assert(r.deep_view() =~= before + m);
    }
}

/// The phase that a rebuild is in when its documents have been prepared up to
/// `next`, and what it has to store again of the snapshot.
fn next_phase(
    docs: usize,
    next: usize,
    snapshot: &Vec<StoredChunk>,
    fresh: &Vec<String>,
    uploaded: Vec<StoredChunk>,
) -> (r: (Phase, Vec<StoredChunk>))
    ensures
        next < docs ==> r.0 == Phase::Documents && r.1.deep_view() == uploaded.deep_view(),
        next >= docs ==> r.1.deep_view() == uploads_of(snapshot.deep_view(), fresh.deep_view())
            && r.0 == if r.1@.len() > 0 {
            Phase::Uploads
        } else {
            Phase::Writing
        },
{
    if next < docs {
        return (Phase::Documents, uploaded);
    }
    let ups = uploads(copies(snapshot), fresh);
    let phase = if ups.len() > 0 {
        Phase::Uploads
    } else {
        Phase::Writing
    };
    (phase, ups)
}

impl Rebuild {
    /// Starts a rebuild at time `now` of the documents that were read and of the
    /// chunks that are stored. Documents without text are passed over.
    pub fn start(
        system: &RagSystem,
        files: Vec<Document>,
        snapshot: Vec<StoredChunk>,
        now: i64,
    ) -> (r: Rebuild)
        requires
            system@.cfg.chunk_chars > 0 || forall|i: int|
                0 <= i < files@.len() ==> all_white((#[trigger] files@[i]).content@),
        ensures
            r@ == started(
                chunked(system@.cfg, files.deep_view(), now),
                snapshot.deep_view(),
            ),
    {
        let ghost all = files.deep_view();
        let ghost cfg = system@.cfg;
        let mut docs: Vec<Vec<StoredChunk>> = Vec::new();
        let mut i: usize = 0;
        proof {
            assert(all.take(0) =~= Seq::<DocumentView>::empty());
            assert(docs.deep_view() =~= Seq::<Seq<ChunkView>>::empty());
        }
        while i < files.len()
            invariant
                i <= files@.len(),
                all == files.deep_view(),
                all.len() == files@.len(),
                cfg == system@.cfg,
                cfg.chunk_chars > 0 || forall|k: int|
                    0 <= k < files@.len() ==> all_white((#[trigger] files@[k]).content@),
                docs.deep_view() == chunked(cfg, all.take(i as int), now),
                forall|k: int| 0 <= k < docs@.len() ==> (#[trigger] docs@[k])@.len() > 0,
            decreases files@.len() - i,
        {
            let ghost before = docs.deep_view();
            proof {
                let next = all.take(i + 1);
                assert(next.drop_last() =~= all.take(i as int));
                assert(next.last() == files@[i as int].deep_view());
            }
            match system.ingest_at(files[i].source.as_str(), files[i].content.as_str(), now) {
                Ok(ingest) => {
                    proof {
                        chunks_fit(
                            files@[i as int].content@,
                            cfg.chunk_chars as int,
                            cfg.overlap_chars as int,
                        );
                        assert(ingest.chunks.deep_view().len() == ingest.chunks@.len());
                    }
                    let ghost c = ingest.chunks.deep_view();
                    docs.push(ingest.chunks);
                    proof {
                        assert(docs.deep_view() =~= before.push(c));
                    }
                },
                Err(_) => {},
            }
            i = i + 1;
        }
        proof {
            assert(all.take(i as int) =~= all);
        }
        let fresh: Vec<String> = Vec::new();
        let (phase, ups) = next_phase(docs.len(), 0, &snapshot, &fresh, Vec::new());
        let ready: Vec<StoredChunk> = Vec::new();
        proof {
            assert(fresh.deep_view() =~= Seq::<Seq<char>>::empty());
            assert(ready.deep_view() =~= Seq::<ChunkView>::empty());
            assert(docs.deep_view().len() == docs@.len());
            assert(ups.deep_view().len() == ups@.len());
        }
        let r = Rebuild {
            docs: docs,
            next: 0,
            snapshot: snapshot,
            fresh: fresh,
            uploads: ups,
            ready: ready,
            phase: phase,
        };
        proof {
            assert(r@ =~= started(
                chunked(system@.cfg, files.deep_view(), now),
                snapshot.deep_view(),
            ));
        }
        r
    }

    /// What the rebuild asks for.
    pub fn action(&self) -> (r: RebuildAction)
        ensures
            r@ == action_of(self@),
    {
        proof {
            use_type_invariant(self);
            assert(self.ready.deep_view().len() == self.ready@.len());
        }
        match self.phase {
            Phase::Documents => {
                let c = copies(&self.docs[self.next]);
                proof {
                    assert(self@.docs[self.next as int] == self.docs@[self.next as int].deep_view());
                }
                RebuildAction::Prepare(c)
            },
            Phase::Uploads => RebuildAction::Prepare(copies(&self.uploads)),
            Phase::Writing => RebuildAction::Replace(copies(&self.ready)),
            Phase::Done => RebuildAction::Finish(self.ready.len()),
            Phase::Failed => RebuildAction::GiveUp,
        }
    }

    /// Goes on after what the rebuild asked for succeeded or failed.
    pub fn step(self, ok: bool) -> (r: Rebuild)
        ensures
            r@ == after(self@, ok),
    {
        proof {
            use_type_invariant(&self);
        }
        let ghost s = self@;
        let Rebuild { docs, next, snapshot, mut fresh, uploads, mut ready, phase } = self;
        match phase {
            Phase::Documents => {
                proof {
                    assert(s.docs[next as int] == docs@[next as int].deep_view());
                    assert(docs@[next as int].deep_view()[0] == docs@[next as int]@[0]@);
                }
                if ok {
                    let source = docs[next][0].source.clone();
                    fresh.push(source);
                    add_copies(&mut ready, &docs[next]);
                    proof {
                        assert(fresh.deep_view() =~= s.fresh.push(source@));
                    }
                }
                let (p, ups) = next_phase(docs.len(), next + 1, &snapshot, &fresh, uploads);
                proof {
                    assert(ups.deep_view().len() == ups@.len());
                    assert(docs.deep_view().len() == docs@.len());
                }
                Rebuild {
                    docs: docs,
                    next: next + 1,
                    snapshot: snapshot,
                    fresh: fresh,
                    uploads: ups,
                    ready: ready,
                    phase: p,
                }
            },
            Phase::Uploads => {
                if ok {
                    add_copies(&mut ready, &uploads);
                }
                let p = if ok {
                    Phase::Writing
                } else {
                    Phase::Failed
                };
                Rebuild {
                    docs: docs,
                    next: next,
                    snapshot: snapshot,
                    fresh: fresh,
                    uploads: uploads,
                    ready: ready,
                    phase: p,
                }
            },
            Phase::Writing => {
                let p = if ok {
                    Phase::Done
                } else {
                    Phase::Failed
                };
                Rebuild {
                    docs: docs,
                    next: next,
                    snapshot: snapshot,
                    fresh: fresh,
                    uploads: uploads,
                    ready: ready,
                    phase: p,
                }
            },
            _ => Rebuild {
                docs: docs,
                next: next,
                snapshot: snapshot,
                fresh: fresh,
                uploads: uploads,
                ready: ready,
                phase: phase,
            },
        }
    }

    /// The chunks that are prepared: once the rebuild is done, all that is stored.
    pub fn into_chunks(self) -> (r: Vec<StoredChunk>)
        ensures
            r.deep_view() == self@.ready,
    {
        self.ready
    }
}

} // verus!
