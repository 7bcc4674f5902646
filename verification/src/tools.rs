//! Cutting a message into the bodies of consecutive packets.
use vstd::prelude::*;
use crate::bytes::copy_range;

verus! {

/// The views of a vector of byte vectors.
pub open spec fn vec_views(s: Seq<Vec<u8>>) -> Seq<Seq<u8>> {
    s.map_values(|v: Vec<u8>| v@)
}

/// How many pieces of `cap` bytes a message of `len` bytes is cut into:
/// `ceil(len / cap)`.
pub open spec fn piece_count(len: nat, cap: nat) -> int {
    (len + cap - 1) / (cap as int)
}

/// The message `b` cut into consecutive pieces of `cap` bytes, the last one
/// holding what is left (between 1 and `cap` bytes). An empty message has no piece.
pub open spec fn segments(b: Seq<u8>, cap: nat) -> Seq<Seq<u8>>
    decreases b.len(),
{
    if b.len() == 0 || cap == 0 {
        seq![]
    } else if b.len() <= cap {
        seq![b]
    } else {
        seq![b.take(cap as int)] + segments(b.skip(cap as int), cap)
    }
}

/// Gluing the pieces back together gives the message.
pub proof fn lemma_segments_flatten(b: Seq<u8>, cap: nat)
    requires
        cap > 0,
    ensures
        segments(b, cap).flatten() == b,
    decreases b.len(),
{
    if b.len() == 0 {
    } else if b.len() <= cap {
        let s = segments(b, cap);
        assert(s.drop_first() =~= Seq::<Seq<u8>>::empty());
        assert(s.drop_first().flatten() == Seq::<u8>::empty());
        assert(s.first() == b);
        assert(s.flatten() == b + Seq::<u8>::empty());
        assert(b + Seq::<u8>::empty() =~= b);
    } else {
        let s = segments(b, cap);
        lemma_segments_flatten(b.skip(cap as int), cap);
        assert(s.drop_first() =~= segments(b.skip(cap as int), cap));
        assert(b.take(cap as int) + b.skip(cap as int) =~= b);
    }
}

/// The pieces: as many as `ceil(len / cap)`, none empty, none longer than `cap`,
/// and all but the last exactly `cap` long.
pub proof fn lemma_segments_shape(b: Seq<u8>, cap: nat)
    requires
        cap > 0,
    ensures
        segments(b, cap).len() == piece_count(b.len(), cap),
        forall|i: int|
            0 <= i < segments(b, cap).len() ==> 0 < #[trigger] segments(b, cap)[i].len() <= cap,
        forall|i: int|
            0 <= i < segments(b, cap).len() - 1 ==> #[trigger] segments(b, cap)[i].len() == cap,
    decreases b.len(),
{
    let s = segments(b, cap);
    if b.len() == 0 {
        assert((cap - 1) / (cap as int) == 0) by (nonlinear_arith)
            requires
                cap > 0,
        ;
    } else if b.len() <= cap {
        assert((b.len() + cap - 1) / (cap as int) == 1) by (nonlinear_arith)
            requires
                cap > 0,
                0 < b.len() <= cap,
        ;
    } else {
        let rest = b.skip(cap as int);
        lemma_segments_shape(rest, cap);
        let n = b.len() as int;
        let c = cap as int;
        assert((n + c - 1) / c == (n - c + c - 1) / c + 1) by (nonlinear_arith)
            requires
                c > 0,
                n > c,
        ;
        assert forall|i: int| 0 <= i < s.len() implies 0 < #[trigger] s[i].len() <= cap by {
            if i > 0 {
                assert(s[i] == segments(rest, cap)[i - 1]);
            }
        }
        assert forall|i: int| 0 <= i < s.len() - 1 implies #[trigger] s[i].len() == cap by {
            if i > 0 {
                assert(s[i] == segments(rest, cap)[i - 1]);
            }
        }
    }
}

/// One step of the cutting: the first piece of `b.skip(done)` is `b[done..done + n]`,
/// where `n` is `cap` or what is left, and the rest is the cutting of `b.skip(done + n)`.
proof fn lemma_segments_step(b: Seq<u8>, cap: nat, done: int, n: int)
    requires
        cap > 0,
        0 <= done < b.len(),
        n == (if b.len() - done >= cap { cap as int } else { b.len() - done }),
    ensures
        segments(b.skip(done), cap) == seq![b.subrange(done, done + n)] + segments(
            b.skip(done + n),
            cap,
        ),
{
    let r = b.skip(done);
    if r.len() <= cap {
        assert(r =~= b.subrange(done, done + n));
        assert(b.skip(done + n) =~= Seq::<u8>::empty());
        assert(segments(b.skip(done + n), cap) =~= seq![]);
        assert(seq![b.subrange(done, done + n)] + seq![] =~= seq![b.subrange(done, done + n)]);
    } else {
        assert(r.take(cap as int) =~= b.subrange(done, done + n));
        assert(r.skip(cap as int) =~= b.skip(done + n));
    }
}

/// Cuts `body` into the bodies of packets of `conf_size` bytes, of which
/// `header_len` go to the header: pieces of `conf_size - header_len` bytes, the
/// last one holding the rest. An empty body gives no piece.
pub fn segment_bytes(body: &Vec<u8>, conf_size: usize, header_len: usize) -> (r: Vec<Vec<u8>>)
    requires
        body@.len() == 0 || conf_size > header_len,
    ensures
        body@.len() == 0 ==> r@.len() == 0,
        body@.len() > 0 ==> vec_views(r@) == segments(body@, (conf_size - header_len) as nat),
{
    let task_total_len = body.len();
    if task_total_len == 0 {
        return Vec::new();
    }
    let real_capacity_len = conf_size - header_len;
    let ghost cap = real_capacity_len as nat;
    let mut queue: Vec<Vec<u8>> = Vec::new();
    let mut task_done_len: usize = 0;
    assert(body@.skip(0) =~= body@);
    while task_done_len < task_total_len
        invariant
            task_total_len == body@.len(),
            task_done_len <= task_total_len,
            real_capacity_len > 0,
            cap == real_capacity_len,
            vec_views(queue@) + segments(body@.skip(task_done_len as int), cap) == segments(
                body@,
                cap,
            ),
        decreases task_total_len - task_done_len,
    {
        let task_left_len = task_total_len - task_done_len;
        let this_done_len = if task_left_len >= real_capacity_len {
            real_capacity_len
        } else {
            task_left_len
        };
        let this_body = copy_range(body, task_done_len, task_done_len + this_done_len);
        proof {
            lemma_segments_step(body@, cap, task_done_len as int, this_done_len as int);
        }
        let ghost before = vec_views(queue@);
        queue.push(this_body);
        assert(vec_views(queue@) =~= before.push(this_body@));
        assert(vec_views(queue@) + segments(
            body@.skip(task_done_len + this_done_len),
            cap,
        ) =~= before + (seq![this_body@] + segments(
            body@.skip(task_done_len + this_done_len),
            cap,
        )));
        task_done_len = task_done_len + this_done_len;
    }
    assert(body@.skip(task_total_len as int) =~= Seq::<u8>::empty());
    assert(vec_views(queue@) + seq![] =~= vec_views(queue@));
    queue
}

} // verus!
