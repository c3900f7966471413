//! Turning the bytes of one read into the requests they carry.
use crate::command::{lemma_parse_ignores_case, same_ignoring_case};
use crate::frame::{decode_stream, Frame, ProtocolError};
use vstd::utf8::{encode_utf8, encode_utf8_decode_utf8, encode_utf8_valid_utf8};
use crate::payload::{frames_of, is_command_frame, lemma_frames_of, lemma_frames_of_push, Payload};
use vstd::prelude::*;

verus! {

broadcast use vstd::std_specs::vec::group_vec_axioms, vstd::seq::group_seq_axioms;

/// Splits the elements of an array into commands: each element that names a
/// command starts a new group, and every other element joins the group before
/// it (the first element starts a group whatever it is).
pub open spec fn group(items: Seq<Frame>) -> Seq<Seq<Frame>>
    decreases items.len(),
{
    if items.len() == 0 {
        Seq::empty()
    } else {
        let g = group(items.drop_last());
        let x = items.last();
        if g.len() == 0 || is_command_frame(x) {
            g.push(seq![x])
        } else {
            g.update(g.len() - 1, g.last().push(x))
        }
    }
}

/// Arrays holding the given groups.
pub open spec fn arrays_of(gs: Seq<Seq<Frame>>) -> Seq<Frame> {
    gs.map_values(|g: Seq<Frame>| Frame::Array(g))
}

/// The requests that one top-level frame carries, each with whether it is the
/// last of them.
pub open spec fn requests_in(t: Frame) -> Seq<(Frame, bool)> {
    match t {
        Frame::Array(items) => {
            let g = group(items);
            Seq::new(g.len(), |i: int| (Frame::Array(g[i]), i == g.len() - 1))
        },
        _ => seq![(t, true)],
    }
}

/// The requests that a run of top-level frames carries, in order.
pub open spec fn requests_of(tops: Seq<Frame>) -> Seq<(Frame, bool)>
    decreases tops.len(),
{
    if tops.len() == 0 {
        Seq::empty()
    } else {
        requests_of(tops.drop_last()) + requests_in(tops.last())
    }
}

/// One command as the dispatcher receives it.
pub struct Request {
    /// The command and its arguments.
    pub payload: Payload,
    /// Whether this is the last command that its top-level payload carried;
    /// only such a command is answered.
    pub terminal: bool,
}

/// The frames and marks of a run of requests.
pub open spec fn request_frames(v: Seq<Request>) -> Seq<(Frame, bool)> {
    Seq::new(v.len(), |i: int| (v[i].payload.frame(), v[i].terminal))
}

/// The parser of RESP requests; it holds no state.
pub struct RedisProtocolParser;

/// Reads every top-level payload off `buf`.
fn decode_all(buf: &[u8]) -> (r: Result<Vec<Payload>, ProtocolError>)
    ensures
        match (r, decode_stream(buf@)) {
            (Ok(v), Ok(tops)) => frames_of(v@) == tops,
            (Err(e), Err(e2)) => e == e2,
            _ => false,
        },
{
    let mut out: Vec<Payload> = Vec::new();
    let mut pos: usize = 0;
    assert(buf@.subrange(0, buf@.len() as int) =~= buf@);
    proof {
        match decode_stream(buf@) {
            Ok(fs) => {
                assert(frames_of(out@) + fs =~= fs);
            },
            Err(_) => {},
        }
    }
    while pos < buf.len()
        invariant
            pos <= buf@.len(),
            decode_stream(buf@) == (match decode_stream(buf@.subrange(pos as int, buf@.len() as int)) {
                Ok(fs) => Ok(frames_of(out@) + fs),
                Err(e) => Err(e),
            }),
        decreases buf@.len() - pos,
    {
        let ghost rest = buf@.subrange(pos as int, buf@.len() as int);
        let res = Payload::decode_at(buf, pos);
        match res {
            Err(e) => {
                return Err(e);
            },
            Ok((p, c)) => {
                let ghost after = buf@.subrange(pos + c, buf@.len() as int);
                assert(rest.subrange(c as int, rest.len() as int) =~= after);
                proof {
                    lemma_frames_of_push(out@, p);
                    match decode_stream(after) {
                        Ok(fs) => {
                            assert(frames_of(out@) + (seq![p.frame()] + fs) =~= frames_of(out@).push(p.frame()) + fs);
                        },
                        Err(_) => {},
                    }
                }
                out.push(p);
                pos = pos + c;
            },
        }
    }
    proof {
        let e = buf@.subrange(pos as int, buf@.len() as int);
        assert(e.len() == 0);
        assert(frames_of(out@) + Seq::<Frame>::empty() =~= frames_of(out@));
    }
    Ok(out)
}

proof fn lemma_frames_of_next(all: Seq<Payload>, i: int)
    requires
        0 <= i < all.len(),
    ensures
        frames_of(all.subrange(0, i + 1)) == frames_of(all.subrange(0, i)).push(all[i].frame()),
        frames_of(all.subrange(0, i + 1)).drop_last() == frames_of(all.subrange(0, i)),
        frames_of(all.subrange(0, i + 1)).last() == all[i].frame(),
{
    assert(all.subrange(0, i + 1) =~= all.subrange(0, i).push(all[i]));
    lemma_frames_of_push(all.subrange(0, i), all[i]);
    assert(frames_of(all.subrange(0, i)).push(all[i].frame()).drop_last() =~= frames_of(all.subrange(0, i)));
}

/// Groups the elements of an array into one array per command.
fn group_commands(items: Vec<Payload>) -> (r: Vec<Payload>)
    ensures
        frames_of(r@) == arrays_of(group(frames_of(items@))),
{
    let ghost all = items@;
    let mut rem = items;
    let mut out: Vec<Payload> = Vec::new();
    let mut cur: Vec<Payload> = Vec::new();
    let mut i: usize = 0;
    let count: usize = rem.len();
    assert(all.subrange(0, 0) =~= Seq::<Payload>::empty());
    while rem.len() > 0
        invariant
            i <= all.len() == count,
            rem@ == all.subrange(i as int, all.len() as int),
            ({
                let g = group(frames_of(all.subrange(0, i as int)));
                &&& (cur@.len() == 0 <==> g.len() == 0)
                &&& g.len() == 0 ==> out@.len() == 0
                &&& g.len() > 0 ==> frames_of(cur@) == g.last() && frames_of(out@) == arrays_of(g.drop_last())
            }),
        decreases rem@.len(),
    {
        let x = rem.remove(0);
        let ghost g0 = group(frames_of(all.subrange(0, i as int)));
        proof {
            lemma_frames_of_next(all, i as int);
            lemma_frames_of_push(cur@, x);
        }
        if cur.len() > 0 && x.is_command() {
            let done = cur;
            cur = Vec::new();
            proof {
                lemma_frames_of_push(out@, Payload::Array(done));
                lemma_frames_of_push(Seq::<Payload>::empty(), x);
                assert(Seq::<Payload>::empty().push(x) =~= seq![x]);
            }
            out.push(Payload::Array(done));
            cur.push(x);
            proof {
                assert(cur@ =~= Seq::<Payload>::empty().push(x));
                let g1 = group(frames_of(all.subrange(0, i + 1)));
                assert(g1 == g0.push(seq![x.frame()]));
                assert(frames_of(Seq::<Payload>::empty()) =~= Seq::<Frame>::empty());
                assert(frames_of(cur@) =~= seq![x.frame()]);
                assert(arrays_of(g1.drop_last()) =~= arrays_of(g0.drop_last()).push(Frame::Array(g0.last())));
            }
        } else {
            cur.push(x);
            proof {
                let g1 = group(frames_of(all.subrange(0, i + 1)));
                if g0.len() == 0 {
                    assert(frames_of(Seq::<Payload>::empty()) =~= Seq::<Frame>::empty());
                    assert(frames_of(cur@) =~= seq![x.frame()]);
                    assert(g1 == g0.push(seq![x.frame()]));
                    assert(g1.drop_last() =~= Seq::<Seq<Frame>>::empty());
                    assert(arrays_of(g1.drop_last()) =~= Seq::<Frame>::empty());
                } else {
                    assert(g1 == g0.update(g0.len() - 1, g0.last().push(x.frame())));
                    assert(g1.drop_last() =~= g0.drop_last());
                }
            }
        }
        i = i + 1;
        assert(rem@ =~= all.subrange(i as int, all.len() as int));
    }
    assert(all.subrange(0, i as int) =~= all);
    let ghost g = group(frames_of(all));
    if cur.len() > 0 {
        proof {
            lemma_frames_of_push(out@, Payload::Array(cur));
            assert(arrays_of(g) =~= arrays_of(g.drop_last()).push(Frame::Array(g.last())));
        }
        out.push(Payload::Array(cur));
    } else {
        assert(arrays_of(g) =~= Seq::<Frame>::empty());
        assert(frames_of(out@) =~= Seq::<Frame>::empty());
    }
    out
}

impl RedisProtocolParser {
    /// Reads every top-level payload in `data`, of which there must be at
    /// least one, and splits each into the commands it carries, marking the
    /// last command of each.
    pub fn parse_requests(data: &[u8]) -> (r: Result<Vec<Request>, ProtocolError>)
        ensures
            data@.len() == 0 ==> r == Err::<Vec<Request>, ProtocolError>(ProtocolError::Incomplete),
            data@.len() > 0 ==> match (r, decode_stream(data@)) {
                (Ok(v), Ok(tops)) => request_frames(v@) == requests_of(tops),
                (Err(e), Err(e2)) => e == e2,
                _ => false,
            },
    {
        if data.len() == 0 {
            return Err(ProtocolError::Incomplete);
        }
        let tops = match decode_all(data) {
            Err(e) => {
                return Err(e);
            },
            Ok(tops) => tops,
        };
        let ghost all = tops@;
        let mut rem = tops;
        let mut out: Vec<Request> = Vec::new();
        let mut i: usize = 0;
        let count: usize = rem.len();
        assert(all.subrange(0, 0) =~= Seq::<Payload>::empty());
        assert(request_frames(out@) =~= Seq::<(Frame, bool)>::empty());
        while rem.len() > 0
            invariant
                i <= all.len() == count,
                rem@ == all.subrange(i as int, all.len() as int),
                request_frames(out@) == requests_of(frames_of(all.subrange(0, i as int))),
            decreases rem@.len(),
        {
            let t = rem.remove(0);
            proof {
                lemma_frames_of_next(all, i as int);
            }
            let ghost base = request_frames(out@);
            let ghost tf = t.frame();
            assert(requests_of(frames_of(all.subrange(0, i + 1))) == base + requests_in(tf));
            match t {
                Payload::Array(items) => {
                    let groups = group_commands(items);
                    let ghost g = group(frames_of(items@));
                    proof {
                        lemma_frames_of(groups@);
                    }
                    let n = groups.len();
                    let mut gs = groups;
                    let mut j: usize = 0;
                    assert(base =~= base + Seq::new(0, |k: int| (Frame::Array(g[k]), k == g.len() - 1)));
                    while gs.len() > 0
                        invariant
                            n == g.len(),
                            j <= n,
                            gs@ == groups@.subrange(j as int, n as int),
                            frames_of(groups@) == arrays_of(g),
                            groups@.len() == n,
                            forall|k: int| 0 <= k < n ==> #[trigger] frames_of(groups@)[k] == groups@[k].frame(),
                            request_frames(out@) == base + Seq::new(j as nat, |k: int| (Frame::Array(g[k]), k == g.len() - 1)),
                        decreases gs@.len(),
                    {
                        let p = gs.remove(0);
                        assert(p == groups@[j as int]);
                        assert(frames_of(groups@)[j as int] == groups@[j as int].frame());
                        assert(arrays_of(g)[j as int] == Frame::Array(g[j as int]));
                        assert(p.frame() == Frame::Array(g[j as int]));
                        let ghost prev = request_frames(out@);
                        let ghost item = (p.frame(), j + 1 == n);
                        out.push(Request { payload: p, terminal: j + 1 == n });
                        assert(request_frames(out@) =~= prev.push(item));
                        j = j + 1;
                        assert(request_frames(out@) =~= base + Seq::new(j as nat, |k: int| (Frame::Array(g[k]), k == g.len() - 1)));
                        assert(gs@ =~= groups@.subrange(j as int, n as int));
                    }
                    assert(request_frames(out@) =~= base + requests_in(tf));
                },
                other => {
                    out.push(Request { payload: other, terminal: true });
                    assert(request_frames(out@) =~= base + requests_in(tf));
                },
            }
            i = i + 1;
            assert(rem@ =~= all.subrange(i as int, all.len() as int));
        }
        assert(all.subrange(0, i as int) =~= all);
        Ok(out)
    }

    /// Reads every top-level payload in `data`, of which there must be at
    /// least one, and splits each into the commands it carries.
    pub fn parse(data: &[u8]) -> (r: Result<Vec<Payload>, ProtocolError>)
        ensures
            data@.len() == 0 ==> r == Err::<Vec<Payload>, ProtocolError>(ProtocolError::Incomplete),
            data@.len() > 0 ==> match (r, decode_stream(data@)) {
                (Ok(v), Ok(tops)) => frames_of(v@) == requests_of(tops).map_values(|x: (Frame, bool)| x.0),
                (Err(e), Err(e2)) => e == e2,
                _ => false,
            },
    {
        if data.len() == 0 {
            return Err(ProtocolError::Incomplete);
        }
        let requests = match RedisProtocolParser::parse_requests(data) {
            Err(e) => {
                return Err(e);
            },
            Ok(v) => v,
        };
        let ghost all = requests@;
        let mut rem = requests;
        let mut out: Vec<Payload> = Vec::new();
        let mut i: usize = 0;
        let count: usize = rem.len();
        proof {
            lemma_frames_of(out@);
        }
        while rem.len() > 0
            invariant
                i <= all.len() == count,
                rem@ == all.subrange(i as int, all.len() as int),
                out@.len() == i,
                forall|k: int| 0 <= k < i ==> (#[trigger] out@[k]).frame() == all[k].payload.frame(),
            decreases rem@.len(),
        {
            let q = rem.remove(0);
            out.push(q.payload);
            i = i + 1;
            assert(rem@ =~= all.subrange(i as int, all.len() as int));
        }
        proof {
            lemma_frames_of(out@);
            assert(frames_of(out@) =~= request_frames(all).map_values(|x: (Frame, bool)| x.0));
        }
        Ok(out)
    }
}

/// Grouping does not depend on case: two bulk strings spelled alike but for
/// the case of ASCII letters both start a command, or neither does.
pub proof fn lemma_grouping_ignores_case(a: Seq<char>, b: Seq<char>)
    requires
        same_ignoring_case(a, b),
    ensures
        is_command_frame(Frame::Bulk(encode_utf8(a))) == is_command_frame(Frame::Bulk(encode_utf8(b))),
{
    encode_utf8_decode_utf8(a);
    encode_utf8_decode_utf8(b);
    encode_utf8_valid_utf8(a);
    encode_utf8_valid_utf8(b);
    lemma_parse_ignores_case(a, b);
}

} // verus!
