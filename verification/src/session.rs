//! Reading frames out of received bytes, and writing the login frame.

use vstd::prelude::*;
use vstd::string::*;
use vstd::utf8::encode_utf8;
use crate::codec::{LoginReqData, encode_login_request};
use crate::protocol_factory::{HandleProtocolData, HandleProtocolFactory};
use crate::chat_protocol::{
    be32_bytes, calculate_len_by_data, command_of_code, empty_frame, field_at, frame_len,
    is_frame, lemma_be32_roundtrip, lemma_split_bytes, split_frame, ChatCommand, FrameModel,
    Protocol, ProtocolField, DATA_LEN_SIZE, HEADER_SIZE, VERSION_SIZE,
};

verus! {

/// The bytes that a frame holding `m` reaches once `bytes` from `index` on are added.
pub open spec fn joined(m: FrameModel, bytes: Seq<u8>, index: int) -> Seq<u8> {
    m.bytes() + bytes.subrange(index, bytes.len() as int)
}

/// The bytes from `index` on are enough to complete the frame `m`.
pub open spec fn can_complete(m: FrameModel, bytes: Seq<u8>, index: int) -> bool {
    let full = joined(m, bytes, index);
    &&& 0 <= index <= bytes.len()
    &&& full.len() >= HEADER_SIZE
    &&& full.len() >= frame_len(full)
}

/// The fields before position `k` are filled.
pub open spec fn filled_before(m: FrameModel, k: int) -> bool {
    forall|j: int| 0 <= j < k ==> #[trigger] m.field_filled(field_at(j))
}

/// Filling the first unfilled field of a frame with the next bytes of a
/// longer frame keeps it well formed, fills that field, and keeps it a
/// prefix of the longer frame.
proof fn lemma_fill_step(m: FrameModel, k: int, full: Seq<u8>)
    requires
        0 <= k < 4,
        m.wf(),
        filled_before(m, k),
        !m.field_filled(field_at(k)),
        full.len() >= HEADER_SIZE,
        full.len() >= frame_len(full),
        m.bytes().len() <= full.len(),
        m.bytes() == full.subrange(0, m.bytes().len() as int),
    ensures
        ({
            let f = field_at(k);
            let n = m.bytes().len() as int;
            let need = m.expected_len(f) - m.field(f).len();
            let m2 = m.with_field(f, m.field(f) + full.subrange(n, n + need));
            &&& need >= 0
            &&& f == ProtocolField::Data ==> m.data_len.len() == DATA_LEN_SIZE
            &&& n + need <= frame_len(full)
            &&& m2.wf()
            &&& m2.field_filled(f)
            &&& filled_before(m2, k + 1)
            &&& m2.bytes() == full.subrange(0, n + need)
        }),
{
    let f = field_at(k);
    let e = m.bytes();
    let n = e.len() as int;
    assert(m.field_filled(field_at(0)) ==> m.version.len() == 4);
    if k == 0 {
        assert(m.data_type.len() == 0);
        assert(e =~= m.version);
        let need = 4 - m.version.len();
        let m2 = m.with_field(f, m.field(f) + full.subrange(n, n + need));
        assert(m2.bytes() =~= full.subrange(0, n + need));
    } else if k == 1 {
        assert(m.field_filled(field_at(0)));
        assert(m.data_type.len() == 0);
        assert(m.data_len.len() == 0);
        assert(e =~= m.version);
        let need = 1int;
        let m2 = m.with_field(f, m.field(f) + full.subrange(n, n + need));
        assert(m2.bytes() =~= full.subrange(0, n + need));
        assert(filled_before(m2, k + 1)) by {
            assert(m.field_filled(field_at(0)));
        }
    } else if k == 2 {
        assert(m.field_filled(field_at(0)));
        assert(m.field_filled(field_at(1)));
        assert(m.data.len() == 0);
        assert(e =~= m.version + m.data_type + m.data_len);
        let need = 4 - m.data_len.len();
        let m2 = m.with_field(f, m.field(f) + full.subrange(n, n + need));
        assert(m2.bytes() =~= full.subrange(0, n + need));
        assert(m2.data_len =~= full.subrange(5, 9)) by {
            assert(m.data_len =~= e.subrange(5, n));
        }
        assert(filled_before(m2, k + 1)) by {
            assert(m.field_filled(field_at(0)));
            assert(m.field_filled(field_at(1)));
        }
    } else {
        assert(m.field_filled(field_at(0)));
        assert(m.field_filled(field_at(1)));
        assert(m.field_filled(field_at(2)));
        assert(m.data_len =~= full.subrange(5, 9)) by {
            assert(m.data_len =~= e.subrange(5, 9));
        }
        let need = m.declared_len() - m.data.len();
        let m2 = m.with_field(f, m.field(f) + full.subrange(n, n + need));
        assert(m2.bytes() =~= full.subrange(0, n + need));
        assert(filled_before(m2, k + 1)) by {
            assert(m.field_filled(field_at(0)));
            assert(m.field_filled(field_at(1)));
            assert(m.field_filled(field_at(2)));
        }
    }
}


/// The bytes of `v` from `from` up to `to`.
fn copy_range(v: &Vec<u8>, from: usize, to: usize) -> (r: Vec<u8>)
    requires
        from <= to <= v.len(),
    ensures
        r@ == v@.subrange(from as int, to as int),
{
    let mut r: Vec<u8> = Vec::new();
    let mut i = from;
    while i < to
        invariant
            from <= i <= to <= v.len(),
            r@ == v@.subrange(from as int, i as int),
        decreases to - i,
    {
        r.push(v[i]);
        i = i + 1;
        assert(r@ =~= v@.subrange(from as int, i as int));
    }
    r
}

/// Fills the field at position `k` of `pkg`, when it is not filled, with the
/// bytes of `all_bytes` from `index` on; the frame so far is the first `n`
/// bytes of `full`.
fn fill_one_field(
    pkg: &mut Protocol,
    field_name: &ProtocolField,
    all_bytes: &Vec<u8>,
    index: usize,
    Ghost(k): Ghost<int>,
    Ghost(full): Ghost<Seq<u8>>,
    Ghost(n): Ghost<int>,
) -> (r: usize)
    requires
        0 <= k < 4,
        *field_name == field_at(k),
        old(pkg)@.wf(),
        filled_before(old(pkg)@, k),
        full.len() >= HEADER_SIZE,
        full.len() >= frame_len(full),
        n <= frame_len(full),
        n == old(pkg)@.bytes().len(),
        index <= all_bytes.len(),
        old(pkg)@.bytes() == full.subrange(0, n),
        full.subrange(n, full.len() as int) == all_bytes@.subrange(index as int, all_bytes.len() as int),
    ensures
        final(pkg)@.wf(),
        filled_before(final(pkg)@, k + 1),
        r >= index,
        r <= all_bytes.len(),
        n + r - index <= frame_len(full),
        final(pkg)@.bytes() == full.subrange(0, n + r - index),
{
    if !pkg.check_field_fill(field_name) {
        proof {
            lemma_fill_step(pkg@, k, full);
        }
        let len = pkg.get_diff_size(field_name);
        proof {
            assert(full.subrange(n, full.len() as int).len() == all_bytes@.subrange(index as int, all_bytes.len() as int).len());
            assert(n + len <= full.len());
            assert(full.subrange(n, full.len() as int).len() == full.len() - n);
            assert(all_bytes@.subrange(index as int, all_bytes.len() as int).len() == all_bytes.len() - index);
            assert(index + len <= all_bytes.len());
            assert(full.subrange(n, n + len) =~= all_bytes@.subrange(index as int, index + len)) by {
                assert forall|j: int| 0 <= j < len implies #[trigger] full.subrange(n, n + len)[j]
                    == all_bytes@.subrange(index as int, index + len)[j] by {
                    assert(full.subrange(n, full.len() as int)[j] == all_bytes@.subrange(
                        index as int,
                        all_bytes.len() as int,
                    )[j]);
                }
            }
        }
        let bytes: Vec<u8> = copy_range(all_bytes, index, index + len);
        pkg.fill_field(field_name, bytes);
        index + len
    } else {
        proof {
            assert(filled_before(pkg@, k + 1));
        }
        index
    }
}

/// Completes the frame `pkg` with the bytes of `all_bytes` from `index` on,
/// field by field, when `index` is below `total_len` and the frame is not yet
/// complete; returns the position after the bytes it used.
pub fn fill(pkg: &mut Protocol, all_bytes: &Vec<u8>, index: usize, total_len: usize) -> (r: usize)
    requires
        old(pkg)@.wf(),
        index < total_len && !old(pkg)@.complete() ==> can_complete(
            old(pkg)@,
            all_bytes@,
            index as int,
        ),
    ensures
        final(pkg)@.wf(),
        if index < total_len && !old(pkg)@.complete() {
            let full = joined(old(pkg)@, all_bytes@, index as int);
            &&& final(pkg)@.complete()
            &&& final(pkg)@.bytes() == full.subrange(0, frame_len(full))
            &&& r == index + frame_len(full) - old(pkg)@.bytes().len()
        } else {
            &&& *final(pkg) == *old(pkg)
            &&& r == index
        },
{
    let ghost e0 = pkg@.bytes();
    let ghost full = joined(pkg@, all_bytes@, index as int);
    let ghost start = index;
    let mut index = index;
    while index < total_len && !pkg.completion()
        invariant
            pkg@.wf(),
            index >= start,
            index == start || all_bytes.len() >= index,
            start < total_len && !old(pkg)@.complete() ==> can_complete(
                old(pkg)@,
                all_bytes@,
                start as int,
            ),
            full == joined(old(pkg)@, all_bytes@, start as int),
            e0 == old(pkg)@.bytes(),
            index == start ==> *pkg == *old(pkg),
            index == start || (start < total_len && !old(pkg)@.complete()),
            pkg@.bytes() == full.subrange(0, e0.len() + index - start),
            e0.len() + index - start <= frame_len(full) || index == start,
            index != start || pkg@.complete() ==> pkg@.complete() && (index == start
                || pkg@.bytes().len() == frame_len(full)),
        decreases (if pkg@.complete() { 0int } else { 1int }),
    {
        proof {
            assert(full.subrange(0, e0.len() as int) =~= e0);
        }
        let fields = Protocol::get_all_filed_name();
        let mut k: usize = 0;
        while k < fields.len()
            invariant
                fields.len() == 4,
                forall|j: int| 0 <= j < 4 ==> fields@[j] == field_at(j),
                0 <= k <= 4,
                pkg@.wf(),
                filled_before(pkg@, k as int),
                index >= start,
                all_bytes.len() >= index,
                can_complete(old(pkg)@, all_bytes@, start as int),
                full == joined(old(pkg)@, all_bytes@, start as int),
                e0 == old(pkg)@.bytes(),
                pkg@.bytes() == full.subrange(0, e0.len() + index - start),
                e0.len() + index - start <= frame_len(full),
                start < total_len && !old(pkg)@.complete(),
            decreases 4 - k,
        {
            let field_name = fields[k];
            proof {
                let n = e0.len() + index - start;
                assert(full.subrange(n, full.len() as int) =~= all_bytes@.subrange(index as int, all_bytes.len() as int));
            }
            index = fill_one_field(pkg, &field_name, all_bytes, index, Ghost(k as int), Ghost(full), Ghost(e0.len() + index - start));
            k = k + 1;
        }
        proof {
            assert(pkg@.field_filled(field_at(0)));
            assert(pkg@.field_filled(field_at(1)));
            assert(pkg@.field_filled(field_at(2)));
            assert(pkg@.field_filled(field_at(3)));
            lemma_split_bytes(pkg@);
            assert(pkg@.bytes().subrange(5, 9) =~= full.subrange(5, 9));
        }
    }
    index
}


/// Filling part of the first unfilled field of a frame keeps it well formed
/// and appends exactly those bytes; filling all that the field lacks fills it.
proof fn lemma_partial_step(m: FrameModel, k: int, chunk: Seq<u8>)
    requires
        0 <= k < 4,
        m.wf(),
        filled_before(m, k),
        !m.field_filled(field_at(k)),
        chunk.len() <= m.expected_len(field_at(k)) - m.field(field_at(k)).len(),
    ensures
        ({
            let f = field_at(k);
            let need = m.expected_len(f) - m.field(f).len();
            let m2 = m.with_field(f, m.field(f) + chunk);
            &&& need > 0
            &&& f == ProtocolField::Data ==> m.data_len.len() == DATA_LEN_SIZE
            &&& m2.wf()
            &&& m2.bytes() == m.bytes() + chunk
            &&& chunk.len() < need ==> !m2.complete()
        }),
{
    let f = field_at(k);
    let m2 = m.with_field(f, m.field(f) + chunk);
    assert(m.field_filled(field_at(0)) ==> m.version.len() == 4);
    if k == 0 {
        assert(m.data_type.len() == 0);
        assert(m2.bytes() =~= m.bytes() + chunk);
    } else if k == 1 {
        assert(m.field_filled(field_at(0)));
        assert(m.data_type.len() == 0);
        assert(m.data_len.len() == 0);
        assert(m2.bytes() =~= m.bytes() + chunk);
    } else if k == 2 {
        assert(m.field_filled(field_at(0)));
        assert(m.field_filled(field_at(1)));
        assert(m.data.len() == 0);
        assert(m2.bytes() =~= m.bytes() + chunk);
        if m2.data_len.len() == DATA_LEN_SIZE {
            assert(m2.data.len() == 0);
        }
    } else {
        assert(m.field_filled(field_at(0)));
        assert(m.field_filled(field_at(1)));
        assert(m.field_filled(field_at(2)));
        assert(m2.bytes() =~= m.bytes() + chunk);
    }
}

/// Adds to the first unfilled field of an incomplete frame as many of the
/// bytes from `index` on as it lacks, or as there are; returns the position
/// after the bytes it used.
fn fill_available(pkg: &mut Protocol, bytes: &Vec<u8>, index: usize) -> (r: usize)
    requires
        old(pkg)@.wf(),
        !old(pkg)@.complete(),
        index < bytes.len(),
    ensures
        final(pkg)@.wf(),
        index < r <= bytes.len(),
        final(pkg)@.bytes() == old(pkg)@.bytes() + bytes@.subrange(index as int, r as int),
{
    let fields = Protocol::get_all_filed_name();
    let mut k: usize = 0;
    while k < 3 && pkg.check_field_fill(&fields[k])
        invariant
            fields.len() == 4,
            forall|j: int| 0 <= j < 4 ==> fields@[j] == field_at(j),
            0 <= k <= 3,
            filled_before(pkg@, k as int),
            pkg@ == old(pkg)@,
        decreases 3 - k,
    {
        k = k + 1;
    }
    let field_name = fields[k];
    proof {
        if k == 3 {
            assert(!pkg@.field_filled(field_at(3))) by {
                assert(pkg@.field_filled(field_at(0)));
                assert(pkg@.field_filled(field_at(1)));
                assert(pkg@.field_filled(field_at(2)));
            }
        }
        lemma_partial_step(pkg@, k as int, Seq::empty());
    }
    let need = pkg.get_diff_size(&field_name);
    let avail = bytes.len() - index;
    let take = if need < avail {
        need
    } else {
        avail
    };
    let chunk = copy_range(bytes, index, index + take);
    proof {
        lemma_partial_step(pkg@, k as int, chunk@);
    }
    pkg.fill_field(&field_name, chunk);
    index + take
}

/// The bytes of a run of frames, one after the other.
pub open spec fn frames_bytes(fs: Seq<FrameModel>) -> Seq<u8>
    decreases fs.len(),
{
    if fs.len() == 0 {
        Seq::empty()
    } else {
        frames_bytes(fs.drop_last()) + fs.last().bytes()
    }
}

/// The frames that a run of received packets holds.
pub open spec fn frame_models(v: Seq<Protocol>) -> Seq<FrameModel> {
    v.map_values(|p: Protocol| p@)
}

/// Cuts received bytes into frames.  The frame still being received is
/// `pending`; the bytes of `buffer` continue it.  Returns every frame that
/// is completed, in order, and leaves in `pending` the incomplete frame that
/// the remaining bytes begin.
pub fn take_frames(pending: &mut Protocol, buffer: &Vec<u8>) -> (r: Vec<Protocol>)
    requires
        old(pending)@.wf(),
    ensures
        final(pending)@.wf(),
        !final(pending)@.complete(),
        forall|i: int| 0 <= i < r.len() ==> (#[trigger] r@[i])@.complete() && r@[i]@.wf(),
        old(pending)@.bytes() + buffer@ == frames_bytes(frame_models(r@)) + final(pending)@.bytes(),
{
    let mut frames: Vec<Protocol> = Vec::new();
    if pending.completion() {
        let mut done = Protocol::create_new();
        std::mem::swap(pending, &mut done);
        let ghost d = done@;
        frames.push(done);
        proof {
            let fs = frame_models(frames@);
            assert(fs.drop_last() =~= Seq::<FrameModel>::empty());
            assert(fs.last() == d);
            assert(frames_bytes(fs.drop_last()) =~= Seq::<u8>::empty());
            assert(frames_bytes(fs) =~= old(pending)@.bytes());
        }
    }
    proof {
        assert(old(pending)@.bytes() + buffer@.subrange(0, 0) =~= frames_bytes(frame_models(frames@)) + pending@.bytes()) by {
            if frames.len() == 0 {
                assert(frame_models(frames@) =~= Seq::<FrameModel>::empty());
            }
        }
    }
    let mut i: usize = 0;
    while i < buffer.len()
        invariant
            i <= buffer.len(),
            pending@.wf(),
            !pending@.complete(),
            forall|j: int| 0 <= j < frames.len() ==> (#[trigger] frames@[j])@.complete() && frames@[j]@.wf(),
            old(pending)@.bytes() + buffer@.subrange(0, i as int) == frames_bytes(frame_models(frames@))
                + pending@.bytes(),
        decreases buffer.len() - i,
    {
        let ghost before = pending@.bytes();
        let ghost i0 = i;
        i = fill_available(pending, buffer, i);
        proof {
            assert(buffer@.subrange(0, i as int) =~= buffer@.subrange(0, i0 as int) + buffer@.subrange(i0 as int, i as int));
            let o = old(pending)@.bytes();
            let a = buffer@.subrange(0, i0 as int);
            let b = buffer@.subrange(i0 as int, i as int);
            let f = frames_bytes(frame_models(frames@));
            assert(o + a == f + before);
            assert(o + (a + b) =~= (o + a) + b);
            assert((f + before) + b =~= f + (before + b));
        }
        if pending.completion() {
            let ghost fs = frame_models(frames@);
            let mut done = Protocol::create_new();
            std::mem::swap(pending, &mut done);
            let ghost d = done@;
            frames.push(done);
            proof {
                let fs2 = frame_models(frames@);
                assert(fs2.drop_last() =~= fs);
                assert(fs2.last() == d);
                assert(frames_bytes(fs2) == frames_bytes(fs) + d.bytes());
                assert(pending@.bytes() =~= Seq::<u8>::empty());
                assert(old(pending)@.bytes() + buffer@.subrange(0, i as int) =~= frames_bytes(fs2) + pending@.bytes());
            }
        }
    }
    proof {
        assert(buffer@.subrange(0, buffer.len() as int) =~= buffer@);
    }
    frames
}


/// The bytes of a non-empty run of frames start with the bytes of its first frame.
pub proof fn lemma_frames_bytes_front(fs: Seq<FrameModel>)
    requires
        fs.len() > 0,
    ensures
        frames_bytes(fs) == fs[0].bytes() + frames_bytes(fs.drop_first()),
    decreases fs.len(),
{
    if fs.len() == 1 {
        assert(fs.drop_last() =~= Seq::<FrameModel>::empty());
        assert(fs.drop_first() =~= Seq::<FrameModel>::empty());
        assert(frames_bytes(fs) =~= fs[0].bytes() + frames_bytes(fs.drop_first()));
    } else {
        lemma_frames_bytes_front(fs.drop_last());
        assert(fs.drop_last().drop_first() =~= fs.drop_first().drop_last());
        assert(fs.drop_first().last() == fs.last());
        assert(fs.drop_last()[0] == fs[0]);
        assert(frames_bytes(fs.drop_first()) == frames_bytes(fs.drop_first().drop_last())
            + fs.drop_first().last().bytes());
        assert(frames_bytes(fs) =~= fs[0].bytes() + frames_bytes(fs.drop_first()));
    }
}

/// Two whole frames at the start of the same bytes are the same frame.
proof fn lemma_frame_head_unique(m: FrameModel, n: FrameModel, r1: Seq<u8>, r2: Seq<u8>)
    requires
        m.wf(),
        n.wf(),
        m.complete(),
        n.complete(),
        m.bytes() + r1 == n.bytes() + r2,
    ensures
        m == n,
        r1 == r2,
{
    lemma_split_bytes(m);
    lemma_split_bytes(n);
    let x = m.bytes() + r1;
    let e1 = m.bytes();
    let e2 = n.bytes();
    assert(e1.subrange(5, 9) =~= x.subrange(5, 9));
    assert(e2.subrange(5, 9) =~= x.subrange(5, 9));
    assert(e1 =~= x.subrange(0, e1.len() as int));
    assert(e2 =~= x.subrange(0, e2.len() as int));
    assert(r1 =~= x.subrange(e1.len() as int, x.len() as int));
    assert(r2 =~= x.subrange(e2.len() as int, x.len() as int));
}

/// A whole frame followed by more bytes is never the start of an unfinished frame.
proof fn lemma_frame_not_in_pending(m: FrameModel, p: FrameModel, r: Seq<u8>)
    requires
        m.wf(),
        p.wf(),
        m.complete(),
        !p.complete(),
    ensures
        m.bytes() + r != p.bytes(),
{
    lemma_split_bytes(m);
    lemma_split_bytes(p);
    let e1 = m.bytes();
    let e2 = p.bytes();
    if e1 + r == e2 {
        assert(e1.subrange(5, 9) =~= e2.subrange(5, 9));
    }
}

/// Law: received bytes cut into whole frames and one unfinished frame can be
/// cut in one way only, so `take_frames` is determined by what it ensures.
pub proof fn frame_split_is_unique(
    fs1: Seq<FrameModel>,
    p1: FrameModel,
    fs2: Seq<FrameModel>,
    p2: FrameModel,
)
    requires
        forall|i: int| 0 <= i < fs1.len() ==> (#[trigger] fs1[i]).wf() && fs1[i].complete(),
        forall|i: int| 0 <= i < fs2.len() ==> (#[trigger] fs2[i]).wf() && fs2[i].complete(),
        p1.wf(),
        p2.wf(),
        !p1.complete(),
        !p2.complete(),
        frames_bytes(fs1) + p1.bytes() == frames_bytes(fs2) + p2.bytes(),
    ensures
        fs1 == fs2,
        p1 == p2,
    decreases fs1.len(),
{
    if fs1.len() == 0 && fs2.len() == 0 {
        assert(frames_bytes(fs1) =~= Seq::<u8>::empty());
        assert(frames_bytes(fs2) =~= Seq::<u8>::empty());
        assert(p1.bytes() =~= p2.bytes());
        lemma_split_bytes(p1);
        lemma_split_bytes(p2);
        assert(fs1 =~= fs2);
    } else if fs1.len() == 0 {
        lemma_frames_bytes_front(fs2);
        assert(frames_bytes(fs1) =~= Seq::<u8>::empty());
        assert(fs2[0].wf() && fs2[0].complete());
        let r = frames_bytes(fs2.drop_first()) + p2.bytes();
        assert(fs2[0].bytes() + r =~= p1.bytes());
        lemma_frame_not_in_pending(fs2[0], p1, r);
    } else if fs2.len() == 0 {
        lemma_frames_bytes_front(fs1);
        assert(frames_bytes(fs2) =~= Seq::<u8>::empty());
        assert(fs1[0].wf() && fs1[0].complete());
        let r = frames_bytes(fs1.drop_first()) + p1.bytes();
        assert(fs1[0].bytes() + r =~= p2.bytes());
        lemma_frame_not_in_pending(fs1[0], p2, r);
    } else {
        lemma_frames_bytes_front(fs1);
        lemma_frames_bytes_front(fs2);
        assert(fs1[0].wf() && fs1[0].complete());
        assert(fs2[0].wf() && fs2[0].complete());
        let r1 = frames_bytes(fs1.drop_first()) + p1.bytes();
        let r2 = frames_bytes(fs2.drop_first()) + p2.bytes();
        assert(fs1[0].bytes() + r1 =~= frames_bytes(fs1) + p1.bytes());
        assert(fs2[0].bytes() + r2 =~= frames_bytes(fs2) + p2.bytes());
        lemma_frame_head_unique(fs1[0], fs2[0], r1, r2);
        let t1 = fs1.drop_first();
        let t2 = fs2.drop_first();
        assert forall|i: int| 0 <= i < t1.len() implies (#[trigger] t1[i]).wf() && t1[i].complete() by {
            assert(t1[i] == fs1[i + 1]);
        }
        assert forall|i: int| 0 <= i < t2.len() implies (#[trigger] t2[i]).wf() && t2[i].complete() by {
            assert(t2[i] == fs2[i + 1]);
        }
        frame_split_is_unique(t1, p1, t2, p2);
        assert(fs1 =~= fs2) by {
            assert forall|i: int| 0 <= i < fs1.len() implies fs1[i] == fs2[i] by {
                if i > 0 {
                    assert(fs1[i] == t1[i - 1]);
                    assert(fs2[i] == t2[i - 1]);
                }
            }
        }
    }
}


/// What a client needs to know: where it listens, where the server is,
/// how it logs in, and which protocol version it speaks.
pub struct EnvConfig {
    pub host: String,
    pub port: String,
    pub server_address: String,
    pub account: String,
    pub password: String,
    pub protocol_version: String,
}

impl EnvConfig {
    /// A configuration made of the given settings.
    pub fn new(
        host: String,
        port: String,
        server_address: String,
        account: String,
        password: String,
        protocol_version: String,
    ) -> (r: Self)
        ensures
            r.host == host,
            r.port == port,
            r.server_address == server_address,
            r.account == account,
            r.password == password,
            r.protocol_version == protocol_version,
    {
        EnvConfig { host, port, server_address, account, password, protocol_version }
    }
}

/// The address a client listens on: `host:port`.
pub fn get_local_addres_from_config(config: &EnvConfig) -> (r: String)
    ensures
        r@ == config.host@ + ":"@ + config.port@,
{
    let mut address = config.host.clone();
    address.append(":");
    address.append(config.port.as_str());
    address
}

/// The login request that a configuration sends.
pub open spec fn login_request_of(config: &EnvConfig) -> LoginReqData {
    LoginReqData { account: config.account, pwd: config.password }
}

/// The frame that logs a client in: its protocol version, the login command,
/// and the login request as payload.
pub open spec fn login_frame(config: &EnvConfig) -> FrameModel {
    let payload = login_request_of(config).spec_bytes();
    FrameModel {
        version: encode_utf8(config.protocol_version@),
        data_type: seq![ChatCommand::LoginReq.code()],
        data_len: be32_bytes(payload.len()),
        data: payload,
    }
}

/// The bytes that log a client in with the account and password of `config`.
pub fn create_login_data(config: &EnvConfig) -> (r: Vec<u8>)
    requires
        login_request_of(config).spec_bytes().len() <= u32::MAX,
    ensures
        r@ == login_frame(config).bytes(),
{
    let login_data = LoginReqData { account: config.account.clone(), pwd: config.password.clone() };
    let data = encode_login_request(&login_data);
    let version = config.protocol_version.as_str().as_bytes_vec();
    let data_type = ChatCommand::LoginReq.to_data_type();
    let data_len = calculate_len_by_data(&data);
    let protocol = Protocol {
        version: Some(version),
        data_type: Some(data_type),
        data_len: Some(data_len),
        data: Some(data),
    };
    protocol.to_vec()
}

/// Law: with a version of `VERSION_SIZE` bytes, the login bytes are one
/// whole frame that carries the login command and the login request.
pub proof fn login_frame_is_whole(config: &EnvConfig)
    requires
        encode_utf8(config.protocol_version@).len() == VERSION_SIZE,
        login_request_of(config).spec_bytes().len() <= u32::MAX,
    ensures
        login_frame(config).wf(),
        login_frame(config).complete(),
        is_frame(login_frame(config).bytes()),
        split_frame(login_frame(config).bytes()) == login_frame(config),
        login_frame(config).command_code() == ChatCommand::LoginReq.code(),
        login_frame(config).data == login_request_of(config).spec_bytes(),
{
    let payload = login_request_of(config).spec_bytes();
    lemma_be32_roundtrip(payload.len());
    lemma_split_bytes(login_frame(config));
}


/// Law: the login bytes are the UTF-8 bytes of the configured protocol
/// version, the command byte 1, the payload length as four big-endian bytes,
/// and a payload that is the login request made of the configured account
/// and the configured password.
pub proof fn login_frame_layout(config: &EnvConfig)
    requires
        (LoginReqData { account: config.account, pwd: config.password }).spec_bytes().len()
            <= u32::MAX,
    ensures
        ({
            let v = encode_utf8(config.protocol_version@);
            let payload = (LoginReqData { account: config.account, pwd: config.password }).spec_bytes();
            let b = login_frame(config).bytes();
            let h = v.len() as int;
            &&& b.len() == h + 5 + payload.len()
            &&& b.subrange(0, h) == v
            &&& b[h] == 1
            &&& (b[h + 1] as nat) * 16777216 + (b[h + 2] as nat) * 65536 + (b[h + 3] as nat) * 256 + (b[h
                + 4] as nat) == payload.len()
            &&& b.subrange(h + 5, b.len() as int) == payload
        }),
{
    let v = encode_utf8(config.protocol_version@);
    let payload = (LoginReqData { account: config.account, pwd: config.password }).spec_bytes();
    let m = login_frame(config);
    let b = m.bytes();
    let h = v.len() as int;
    assert(m.data == payload);
    lemma_be32_roundtrip(payload.len());
    assert(b.subrange(0, h) =~= v);
    assert(b.subrange(h + 5, b.len() as int) =~= payload);
    assert(b[h] == m.data_type[0]);
    assert(b[h + 1] == m.data_len[0]);
    assert(b[h + 2] == m.data_len[1]);
    assert(b[h + 3] == m.data_len[2]);
    assert(b[h + 4] == m.data_len[3]);
}

/// The handler and the payload that a whole frame goes to: the handler of
/// its command, and its payload.  The command must be known and have a handler.
pub fn route_pkg<'a, H>(pkg: &'a Protocol, factory: &'a HandleProtocolFactory<H>) -> (r: (
    &'a H,
    Vec<u8>,
))
    requires
        pkg@.wf(),
        pkg@.complete(),
        command_of_code(pkg@.command_code()) is Some,
        factory@.contains_key(pkg@.command_code()),
    ensures
        *r.0 == factory@[pkg@.command_code()],
        r.1@ == pkg@.data,
{
    let data_type = match &pkg.data_type {
        Some(t) => t[0],
        None => 0,
    };
    let command = ChatCommand::to_self(data_type).unwrap();
    let handler = factory.get_handler(&command);
    let data = match &pkg.data {
        Some(d) => copy_range(d, 0, d.len()),
        None => Vec::new(),
    };
    proof {
        if pkg.data is Some {
            assert(pkg.data.unwrap()@.subrange(0, pkg.data.unwrap()@.len() as int) =~= pkg@.data);
        }
    }
    (handler, data)
}

/// Hands the payload of a whole frame to the handler of its command (as
/// `route_pkg` picks them) and returns that handler's answer: a result that
/// the handler's `handle` gives for that payload.  The command
/// must be known and have a handler.
pub fn handle_pkg<H: HandleProtocolData>(pkg: &Protocol, factory: &HandleProtocolFactory<H>) -> (r:
    Option<Vec<u8>>)
    requires
        pkg@.wf(),
        pkg@.complete(),
        command_of_code(pkg@.command_code()) is Some,
        factory@.contains_key(pkg@.command_code()),
    ensures
        exists|data: Vec<u8>|
            data@ == pkg@.data && call_ensures(
                H::handle,
                (&factory@[pkg@.command_code()], &data),
                r,
            ),
{
    let (handler, data) = route_pkg(pkg, factory);
    let r = handler.handle(&data);
    assert(call_ensures(H::handle, (handler, &data), r));
    r
}

/// Law: the bytes of a whole frame, read with `fill` into an empty frame,
/// give back that frame, whatever bytes follow them.
pub proof fn frame_written_then_filled(m: FrameModel, rest: Seq<u8>)
    requires
        m.wf(),
        m.complete(),
    ensures
        can_complete(empty_frame(), m.bytes() + rest, 0),
        ({
            let full = joined(empty_frame(), m.bytes() + rest, 0);
            full.subrange(0, frame_len(full)) == m.bytes()
        }),
        forall|q: FrameModel| q.wf() && #[trigger] q.bytes() == m.bytes() ==> q == m,
{
    lemma_split_bytes(m);
    let x = m.bytes() + rest;
    let full = joined(empty_frame(), x, 0);
    assert(full =~= x);
    assert(full.subrange(5, 9) =~= m.bytes().subrange(5, 9));
    assert(full.subrange(0, frame_len(full)) =~= m.bytes());
    assert forall|q: FrameModel| q.wf() && #[trigger] q.bytes() == m.bytes() implies q == m by {
        lemma_split_bytes(q);
    }
}


/// The bytes of two runs of frames, one after the other, are the bytes of
/// the joined run.
pub proof fn lemma_frames_bytes_concat(fs1: Seq<FrameModel>, fs2: Seq<FrameModel>)
    ensures
        frames_bytes(fs1 + fs2) == frames_bytes(fs1) + frames_bytes(fs2),
    decreases fs2.len(),
{
    if fs2.len() == 0 {
        assert(fs1 + fs2 =~= fs1);
        assert(frames_bytes(fs1) + frames_bytes(fs2) =~= frames_bytes(fs1));
    } else {
        lemma_frames_bytes_concat(fs1, fs2.drop_last());
        assert((fs1 + fs2).drop_last() =~= fs1 + fs2.drop_last());
        assert((fs1 + fs2).last() == fs2.last());
        assert(frames_bytes(fs1 + fs2) =~= frames_bytes(fs1) + frames_bytes(fs2));
    }
}

/// Law: bytes received in two pieces give the frames that the same bytes
/// give when received at once, and leave the same unfinished frame.  Each
/// triple (start, bytes, frames, end) is what `take_frames` ensures of a call.
pub proof fn frames_in_pieces_match_frames_at_once(
    start: FrameModel,
    b1: Seq<u8>,
    b2: Seq<u8>,
    fs1: Seq<FrameModel>,
    mid: FrameModel,
    fs2: Seq<FrameModel>,
    end: FrameModel,
    fs: Seq<FrameModel>,
    end_at_once: FrameModel,
)
    requires
        start.wf(),
        mid.wf(),
        !mid.complete(),
        end.wf(),
        !end.complete(),
        end_at_once.wf(),
        !end_at_once.complete(),
        forall|i: int| 0 <= i < fs1.len() ==> (#[trigger] fs1[i]).wf() && fs1[i].complete(),
        forall|i: int| 0 <= i < fs2.len() ==> (#[trigger] fs2[i]).wf() && fs2[i].complete(),
        forall|i: int| 0 <= i < fs.len() ==> (#[trigger] fs[i]).wf() && fs[i].complete(),
        start.bytes() + b1 == frames_bytes(fs1) + mid.bytes(),
        mid.bytes() + b2 == frames_bytes(fs2) + end.bytes(),
        start.bytes() + (b1 + b2) == frames_bytes(fs) + end_at_once.bytes(),
    ensures
        fs == fs1 + fs2,
        end_at_once == end,
{
    lemma_frames_bytes_concat(fs1, fs2);
    let f1 = frames_bytes(fs1);
    let f2 = frames_bytes(fs2);
    assert(start.bytes() + (b1 + b2) =~= (start.bytes() + b1) + b2);
    assert((f1 + mid.bytes()) + b2 =~= f1 + (mid.bytes() + b2));
    assert(f1 + (f2 + end.bytes()) =~= (f1 + f2) + end.bytes());
    let joined_run = fs1 + fs2;
    assert forall|i: int| 0 <= i < joined_run.len() implies (#[trigger] joined_run[i]).wf()
        && joined_run[i].complete() by {
        if i < fs1.len() {
            assert(joined_run[i] == fs1[i]);
        } else {
            assert(joined_run[i] == fs2[i - fs1.len()]);
        }
    }
    frame_split_is_unique(fs, end_at_once, joined_run, end);
}

} // verus!
