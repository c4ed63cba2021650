//! The per-connection drain: runs every whole frame standing in the read
//! buffer through the dispatcher, concatenates the replies, and says what
//! of the buffer must be kept for the next read. The reads and writes
//! themselves stay outside.
use vstd::prelude::*;

verus! {

use crate::commands::{dispatch, dispatch_spec};
use crate::decode::{decode_at, DecodeError};
use crate::frame::{encode_all, extendable, no_parse, wf_list, FrameSpec};
use crate::role::Role;
use crate::store::Store;

/// The store and the written bytes after a run of frames, each frame seen
/// against the store the previous ones left.
pub open spec fn run_frames(
    frames: Seq<FrameSpec>,
    m: Map<Seq<u8>, (Seq<u8>, Option<u64>)>,
    role: Role,
    now: u64,
) -> (Map<Seq<u8>, (Seq<u8>, Option<u64>)>, Seq<u8>)
    decreases frames.len(),
{
    if frames.len() == 0 {
        (m, Seq::empty())
    } else {
        let (m1, rep) = dispatch_spec(frames[0], m, role, now);
        let out1 = match rep {
            Some(v) => v,
            None => Seq::empty(),
        };
        let (m2, out2) = run_frames(frames.drop_first(), m1, role, now);
        (m2, out1 + out2)
    }
}

/// Running one more frame after a run dispatches it against the store the
/// run left, and appends its reply.
#[verifier::rlimit(100)]
#[verifier::spinoff_prover]
pub proof fn lemma_run_frames_snoc(
    frames: Seq<FrameSpec>,
    g: FrameSpec,
    m: Map<Seq<u8>, (Seq<u8>, Option<u64>)>,
    role: Role,
    now: u64,
)
    ensures
        ({
            let (m1, o1) = run_frames(frames, m, role, now);
            let (m2, rep) = dispatch_spec(g, m1, role, now);
            let o2 = match rep {
                Some(v) => v,
                None => Seq::<u8>::empty(),
            };
            run_frames(frames.push(g), m, role, now) == (m2, o1 + o2)
        }),
    decreases frames.len(),
{
    reveal_with_fuel(run_frames, 3);
    let s = frames.push(g);
    if frames.len() == 0 {
        assert(s[0] == g);
        assert(s.drop_first() =~= Seq::<FrameSpec>::empty());
        let (m1, rep) = dispatch_spec(g, m, role, now);
        let o2 = match rep {
            Some(v) => v,
            None => Seq::<u8>::empty(),
        };
        assert(Seq::<u8>::empty() + o2 =~= o2);
        assert(o2 + Seq::<u8>::empty() =~= o2);
    } else {
        assert(s[0] == frames[0]);
        assert(s.drop_first() =~= frames.drop_first().push(g));
        let (m1, rep) = dispatch_spec(frames[0], m, role, now);
        lemma_run_frames_snoc(frames.drop_first(), g, m1, role, now);
        let o1 = match rep {
            Some(v) => v,
            None => Seq::<u8>::empty(),
        };
        let (ma, oa) = run_frames(frames.drop_first(), m1, role, now);
        let (mb, repb) = dispatch_spec(g, ma, role, now);
        let ob = match repb {
            Some(v) => v,
            None => Seq::<u8>::empty(),
        };
        assert(o1 + (oa + ob) =~= (o1 + oa) + ob);
    }
}

/// The decomposition named in the drain's contract, with the shorter
/// frame run first.
proof fn lemma_drain_unique_le(
    f1: Seq<FrameSpec>,
    j1: Seq<u8>,
    f2: Seq<FrameSpec>,
    j2: Seq<u8>,
)
    requires
        wf_list(f1),
        wf_list(f2),
        no_parse(j1),
        f1.len() <= f2.len(),
        encode_all(f1) + j1 == encode_all(f2) + j2,
    ensures
        f1 == f2,
        j1 == j2,
{
    crate::frame::lemma_prefix_free_list(f1, f2, j1, j2);
    if f1.len() < f2.len() {
        let rest = f2.skip(f1.len() as int);
        assert(rest.len() > 0);
        assert(j1 == encode_all(rest) + j2);
        assert(encode_all(rest) == crate::frame::encode_of(rest[0]) + encode_all(
            rest.drop_first(),
        ));
        assert(j1 =~= crate::frame::encode_of(rest[0]) + (encode_all(rest.drop_first()) + j2));
        assert(crate::frame::prefix_of(crate::frame::encode_of(rest[0]), j1));
        assert(rest[0] == f2[f1.len() as int]);
        crate::frame::lemma_wf_list_index(f2);
        assert(rest[0].wf());
        assert(false);
    }
    assert(f1 =~= f2.take(f1.len() as int));
    assert(f2.take(f2.len() as int) =~= f2);
}

/// The decomposition named in the drain's contract is the only one: a
/// byte string splits in at most one way into whole well-formed frames
/// followed by a tail that holds no whole frame.
pub proof fn lemma_drain_unique(
    f1: Seq<FrameSpec>,
    j1: Seq<u8>,
    f2: Seq<FrameSpec>,
    j2: Seq<u8>,
)
    requires
        wf_list(f1),
        wf_list(f2),
        no_parse(j1),
        no_parse(j2),
        encode_all(f1) + j1 == encode_all(f2) + j2,
    ensures
        f1 == f2,
        j1 == j2,
{
    if f1.len() <= f2.len() {
        lemma_drain_unique_le(f1, j1, f2, j2);
    } else {
        lemma_drain_unique_le(f2, j2, f1, j1);
    }
}

/// Drains the buffer: dispatches every whole frame standing at its front,
/// in order, and returns the concatenated replies together with what the
/// caller must keep. A buffer ending in a truncated frame keeps that
/// tail for the next read; one whose tail no input could mend is dropped.
pub fn process_chunk(data: &[u8], store: &mut Store, role: &Role, now: u64) -> (r: (
    Vec<u8>,
    Vec<u8>,
))
    requires
        old(store).wf(),
    ensures
        final(store).wf(),
        exists|frames: Seq<FrameSpec>, junk: Seq<u8>|
            {
                &&& wf_list(frames)
                &&& data@ == #[trigger] (encode_all(frames) + junk)
                &&& no_parse(junk)
                &&& (final(store)@, r.0@) == run_frames(frames, old(store)@, *role, now)
                &&& (if extendable(junk) {
                    r.1@ == junk
                } else {
                    r.1@ == Seq::<u8>::empty()
                })
            },
{
    let n = data.len();
    let mut out: Vec<u8> = Vec::new();
    let mut pos: usize = 0;
    let ghost mut frames = Seq::<FrameSpec>::empty();
    loop
        invariant
            0 <= pos <= n,
            n == data@.len(),
            old(store).wf(),
            after_borrow(store).wf(),
            wf_list(frames),
            data@.subrange(0, pos as int) == encode_all(frames),
            (after_borrow(store)@, out@) == run_frames(frames, old(store)@, *role, now),
        decreases n - pos,
    {
        match decode_at(data, pos) {
            Ok((f, end)) => {
                let reply = dispatch(&f, store, role, now);
                proof {
                    lemma_run_frames_snoc(frames, f.deep(), old(store)@, *role, now);
                    crate::frame::lemma_encode_all_append(frames, seq![f.deep()]);
                    crate::frame::lemma_encode_all_one(f.deep());
                    crate::frame::lemma_wf_list_index(frames);
                    crate::frame::lemma_wf_list_index(frames.push(f.deep()));
                    assert(frames.push(f.deep()) =~= frames + seq![f.deep()]);
                    assert(data@.subrange(0, end as int) =~= data@.subrange(0, pos as int)
                        + data@.subrange(pos as int, end as int));
                    frames = frames.push(f.deep());
                }
                match reply {
                    Some(mut v) => {
                        out.append(&mut v);
                    },
                    None => {
                        proof {
                            assert(out@ + Seq::<u8>::empty() =~= out@);
                        }
                    },
                }
                pos = end;
            },
            Err(e) => {
                let ghost junk = data@.skip(pos as int);
                proof {
                    assert(data@ =~= encode_all(frames) + junk);
                }
                if e == DecodeError::Incomplete {
                    let keep = vstd::slice::slice_to_vec(
                        vstd::slice::slice_subrange(data, pos, n),
                    );
                    proof {
                        assert(keep@ == junk);
                    }
                    return (out, keep);
                } else {
                    let keep: Vec<u8> = Vec::new();
                    return (out, keep);
                }
            },
        }
    }
}

} // verus!

