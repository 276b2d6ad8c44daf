//! Input binding: hashing input names with FNV-1a and copying the caller's
//! named value sequences into the evaluator's input buffer, then producing
//! the witness.

use vstd::prelude::*;
use vstd::utf8::encode_utf8;
use vstd::string::StringSliceAdditionalSpecFns;
use crate::field::{Felt, p, modulus, felt_lt};
use crate::graph::{
    Graph,
    InputSignalInfo,
    evaluate,
    get_inputs_size,
    graph_wf,
    inputs_size_spec,
    node_val,
    graph_ok,
    vals_of,
};
use crate::ops::Error;

verus! {

/// One step of FNV-1a: fold a byte into the hash.
pub open spec fn fnv_step(h: u64, c: u8) -> u64 {
    (((h ^ (c as u64)) as nat * 0x100000001B3) % 0x1_0000_0000_0000_0000) as u64
}

/// FNV-1a 64-bit over a byte sequence: the offset basis, then one fold per
/// byte in order.
pub open spec fn fnv1a_spec(bytes: Seq<u8>) -> u64
    decreases bytes.len(),
{
    if bytes.len() == 0 {
        0xCBF29CE484222325u64
    } else {
        fnv_step(fnv1a_spec(bytes.drop_last()), bytes.last())
    }
}

/// FNV-1a 64-bit hash of the name's UTF-8 bytes.
pub fn fnv1a(s: &str) -> (r: u64)
    ensures
        r == fnv1a_spec(encode_utf8(s@)),
{
    let bytes = s.as_bytes();
    let mut hash: u64 = 0xCBF29CE484222325;
    let nb = bytes.len();
    for i in 0..nb
        invariant
            nb == bytes@.len(),
            bytes@ == s.spec_bytes(),
            hash == fnv1a_spec(bytes@.subrange(0, i as int)),
    {
        hash = (hash ^ (bytes[i] as u64)).wrapping_mul(0x100000001B3);
        proof {
            assert(bytes@.subrange(0, i + 1).drop_last() =~= bytes@.subrange(0, i as int));
            assert(bytes@.subrange(0, i + 1).last() == bytes@[i as int]);
        }
    }
    proof {
        assert(bytes@.subrange(0, nb as int) =~= bytes@);
    }
    hash
}

/// The first entry of the map with the given hash, if any.
pub open spec fn entry_signal(map: Seq<(u64, InputSignalInfo)>, h: u64) -> Option<InputSignalInfo>
    decreases map.len(),
{
    if map.len() == 0 {
        None
    } else if map[0].0 == h {
        Some(map[0].1)
    } else {
        entry_signal(map.drop_first(), h)
    }
}

/// The zero element, at spec level.
pub open spec fn felt_zero() -> Felt {
    Felt { l0: 0, l1: 0, l2: 0, l3: 0 }
}

/// The buffer with `vals` written at `at`.
pub open spec fn write_range(buffer: Seq<Felt>, at: int, vals: Seq<Felt>) -> Seq<Felt> {
    Seq::new(
        buffer.len(),
        |i: int|
            if at <= i < at + vals.len() {
                vals[i - at]
            } else {
                buffer[i]
            },
    )
}

/// Binds one named value sequence: looks its hash up, checks the declared
/// size, the buffer range and canonicity of the values, and writes them.
pub open spec fn bind_one(
    buffer: Seq<Felt>,
    key: String,
    vals: Seq<Felt>,
    map: Seq<(u64, InputSignalInfo)>,
) -> Option<Seq<Felt>> {
    match entry_signal(map, fnv1a_spec(encode_utf8(key@))) {
        None => None,
        Some(sig) => if sig.size == vals.len() && sig.id + sig.size <= buffer.len() && (forall|
            t: int,
        | 0 <= t < vals.len() ==> (#[trigger] vals[t]).as_nat() < p()) {
            Some(write_range(buffer, sig.id as int, vals))
        } else {
            None
        },
    }
}

/// Binds every entry of the list in order.
pub open spec fn bind_list(
    buffer: Seq<Felt>,
    list: Seq<(String, Vec<Felt>)>,
    map: Seq<(u64, InputSignalInfo)>,
) -> Option<Seq<Felt>>
    decreases list.len(),
{
    if list.len() == 0 {
        Some(buffer)
    } else {
        match bind_one(buffer, list[0].0, list[0].1@, map) {
            None => None,
            Some(b2) => bind_list(b2, list.drop_first(), map),
        }
    }
}

/// Binding a list with one more entry binds the list, then the entry.
proof fn lemma_bind_push(
    buffer: Seq<Felt>,
    list: Seq<(String, Vec<Felt>)>,
    x: (String, Vec<Felt>),
    map: Seq<(u64, InputSignalInfo)>,
)
    ensures
        bind_list(buffer, list.push(x), map) == (match bind_list(buffer, list, map) {
            None => None,
            Some(b2) => bind_one(b2, x.0, x.1@, map),
        }),
    decreases list.len(),
{
    if list.len() == 0 {
        assert(list.push(x)[0] == x);
        assert(list.push(x).drop_first() =~= Seq::<(String, Vec<Felt>)>::empty());
        assert(bind_list(buffer, list, map) == Some(buffer));
        match bind_one(buffer, x.0, x.1@, map) {
            None => {
                assert(bind_list(buffer, list.push(x), map) is None);
            },
            Some(b2) => {
                assert(bind_list(buffer, list.push(x), map) == bind_list(
                    b2,
                    list.push(x).drop_first(),
                    map,
                ));
                assert(bind_list(b2, list.push(x).drop_first(), map) == Some(b2));
            },
        }
    } else {
        assert(list.push(x)[0] == list[0]);
        assert(list.push(x).drop_first() =~= list.drop_first().push(x));
        match bind_one(buffer, list[0].0, list[0].1@, map) {
            None => {},
            Some(b2) => {
                lemma_bind_push(b2, list.drop_first(), x, map);
            },
        }
    }
}

/// The input buffer the graph starts from: all zero.
pub open spec fn zero_buffer(n: nat) -> Seq<Felt> {
    Seq::new(n, |i: int| felt_zero())
}

/// The zeroed input buffer the evaluator starts from.
pub open spec fn start_buffer(g: &Graph) -> Seq<Felt> {
    zero_buffer(inputs_size_spec(g.nodes@, 0, false, 0))
}

/// The buffer after binding the first `i` entries of the list, if they all
/// bind.
pub open spec fn bound_prefix(list: Seq<(String, Vec<Felt>)>, g: &Graph, i: int) -> Option<
    Seq<Felt>,
> {
    bind_list(start_buffer(g), list.subrange(0, i), g.input_map@)
}

/// The signal the graph declares under a name's hash, if any.
pub open spec fn signal_of(g: &Graph, key: String) -> Option<InputSignalInfo> {
    entry_signal(g.input_map@, fnv1a_spec(encode_utf8(key@)))
}

/// Binds the named inputs and replays the graph: the witness is the value
/// vector of the graph's outputs on the bound buffer. Each error names its
/// cause, for the first entry (in list order) that fails to bind: an
/// unknown name, a declared size differing from the provided length, a
/// binding that leaves the buffer, a value at or above the prime — or, with
/// everything bound, a division by zero while evaluating.
pub fn calculate_witness(input_list: &Vec<(String, Vec<Felt>)>, graph: &Graph) -> (r: Result<
    Vec<Felt>,
    Error,
>)
    requires
        graph_wf(graph),
    ensures
        match r {
            Ok(w) => {
                &&& bind_list(start_buffer(graph), input_list@, graph.input_map@) matches Some(buf)
                &&& graph_ok(graph.nodes@, vals_of(buf))
                &&& w@.len() == graph.outputs@.len()
                &&& forall|k: int|
                    0 <= k < graph.outputs@.len() ==> (#[trigger] w@[k]).as_nat() == node_val(
                        graph.nodes@,
                        vals_of(buf),
                        graph.outputs@[k] as int,
                    ) && w@[k].is_canonical()
            },
            Err(e) => match e {
                Error::Arithmetic => {
                    &&& bind_list(start_buffer(graph), input_list@, graph.input_map@) matches Some(
                        buf,
                    )
                    &&& !graph_ok(graph.nodes@, vals_of(buf))
                },
                Error::UnknownInput(k) => {
                    &&& bind_list(start_buffer(graph), input_list@, graph.input_map@) is None
                    &&& exists|i: int|
                        0 <= i < input_list@.len() && (#[trigger] bound_prefix(
                            input_list@,
                            graph,
                            i,
                        )) is Some && signal_of(graph, input_list@[i].0) is None && k@
                            == input_list@[i].0@
                },
                Error::SizeMismatch(d, pr) => {
                    &&& bind_list(start_buffer(graph), input_list@, graph.input_map@) is None
                    &&& exists|i: int|
                        0 <= i < input_list@.len() && (#[trigger] bound_prefix(
                            input_list@,
                            graph,
                            i,
                        )) is Some && (signal_of(graph, input_list@[i].0) matches Some(sig)
                            && sig.size == d && input_list@[i].1@.len() == pr && d != pr)
                },
                Error::MalformedGraph => {
                    &&& bind_list(start_buffer(graph), input_list@, graph.input_map@) is None
                    &&& exists|i: int|
                        0 <= i < input_list@.len() && (#[trigger] bound_prefix(
                            input_list@,
                            graph,
                            i,
                        )) is Some && (signal_of(graph, input_list@[i].0) matches Some(sig)
                            && sig.size == input_list@[i].1@.len() && sig.id + sig.size
                            > inputs_size_spec(graph.nodes@, 0, false, 0))
                },
                Error::InputOutOfRange => {
                    &&& bind_list(start_buffer(graph), input_list@, graph.input_map@) is None
                    &&& exists|i: int|
                        0 <= i < input_list@.len() && (#[trigger] bound_prefix(
                            input_list@,
                            graph,
                            i,
                        )) is Some && (signal_of(graph, input_list@[i].0) matches Some(sig)
                            && sig.size == input_list@[i].1@.len() && sig.id + sig.size
                            <= inputs_size_spec(graph.nodes@, 0, false, 0) && exists|t2: int|
                            0 <= t2 < input_list@[i].1@.len() && (#[trigger] input_list@[i].1@[t2]).as_nat()
                                >= p())
                },
            },
        },
{
    let size = get_inputs_size(graph);
    let mut buffer: Vec<Felt> = Vec::new();
    for t in 0..size
        invariant
            buffer@.len() == t,
            forall|i: int| 0 <= i < t ==> #[trigger] buffer@[i] == felt_zero(),
    {
        let z = Felt::zero();
        proof {
            assert(z == felt_zero());
            assert(z.as_nat() == 0);
        }
        buffer.push(z);
    }
    proof {
        crate::field::lemma_p_bounds();
        assert(buffer@ =~= zero_buffer(size as nat));
        assert forall|u: int| 0 <= u < buffer@.len() implies (#[trigger] buffer@[u]).as_nat()
            < p() by {
            assert(buffer@[u] == felt_zero());
            assert(buffer@[u].l0 == 0 && buffer@[u].l1 == 0 && buffer@[u].l2 == 0 && buffer@[u].l3
                == 0);
        }
    }
    let ghost zb = buffer@;
    let m = modulus();
    let nl = input_list.len();
    for i in 0..nl
        invariant
            nl == input_list@.len(),
            m.as_nat() == p(),
            graph_wf(graph),
            buffer@.len() == size,
            size == inputs_size_spec(graph.nodes@, 0, false, 0),
            zb == start_buffer(graph),
            forall|u: int| 0 <= u < buffer@.len() ==> (#[trigger] buffer@[u]).as_nat() < p(),
            bind_list(zb, input_list@.subrange(0, i as int), graph.input_map@) == Some(buffer@),
    {
        let ghost buf0 = buffer@;
        let pair = &input_list[i];
        let key = &pair.0;
        let hash = fnv1a(key.as_str());
        let mut q: usize = 0;
        let ml = graph.input_map.len();
        proof {
            assert(graph.input_map@.subrange(0, ml as int) =~= graph.input_map@);
        }
        let mut sig: Option<InputSignalInfo> = None;
        while q < ml && sig.is_none()
            invariant
                ml == graph.input_map@.len(),
                q <= ml,
                match sig {
                    Some(s) => entry_signal(graph.input_map@, hash) == Some(s),
                    None => entry_signal(graph.input_map@.subrange(q as int, ml as int), hash)
                        == entry_signal(graph.input_map@, hash),
                },
            decreases ml - q,
        {
            let e = graph.input_map[q];
            proof {
                assert(graph.input_map@.subrange(q as int, ml as int)[0] == e);
                assert(graph.input_map@.subrange(q as int, ml as int).drop_first()
                    =~= graph.input_map@.subrange(q as int + 1, ml as int));
            }
            if e.0 == hash {
                sig = Some(e.1);
            }
            q += 1;
        }
        let values = &pair.1;
        let vlen = values.len();
        proof {
            assert(input_list@.subrange(0, i as int).push(input_list@[i as int]) =~= input_list@.subrange(
                0,
                i + 1,
            ));
            lemma_bind_push(
                zb,
                input_list@.subrange(0, i as int),
                input_list@[i as int],
                graph.input_map@,
            );
        }
        proof {
            assert(bound_prefix(input_list@, graph, i as int) == Some(buf0));
            assert(*key == input_list@[i as int].0);
            assert(hash == fnv1a_spec(encode_utf8(input_list@[i as int].0@)));
        }
        let s = match sig {
            None => {
                proof {
                    assert(signal_of(graph, input_list@[i as int].0) is None);
                    lemma_bind_none(zb, input_list@, graph.input_map@, i as int, buf0);
                }
                return Err(Error::UnknownInput(key.clone()));
            },
            Some(s) => s,
        };
        proof {
            assert(signal_of(graph, input_list@[i as int].0) == Some(s));
            assert(input_list@[i as int].1@.len() == values@.len());
        }
        if s.size != vlen {
            proof {
                lemma_bind_none(zb, input_list@, graph.input_map@, i as int, buf0);
            }
            return Err(Error::SizeMismatch(s.size, vlen));
        }
        if s.id > buffer.len() || vlen > buffer.len() - s.id {
            proof {
                assert(s.id + s.size > inputs_size_spec(graph.nodes@, 0, false, 0));
                lemma_bind_none(zb, input_list@, graph.input_map@, i as int, buf0);
            }
            return Err(Error::MalformedGraph);
        }
        let mut ok = true;
        for t in 0..vlen
            invariant
                vlen == values@.len(),
                m.as_nat() == p(),
                ok == (forall|u: int| 0 <= u < t ==> (#[trigger] values@[u]).as_nat() < p()),
        {
            if !felt_lt(&values[t], &m) {
                ok = false;
            }
        }
        if !ok {
            proof {
                assert(s.id + s.size <= inputs_size_spec(graph.nodes@, 0, false, 0));
                let t2 = choose|u: int|
                    0 <= u < values@.len() && !((#[trigger] values@[u]).as_nat() < p());
                assert(input_list@[i as int].1@[t2].as_nat() >= p());
                lemma_bind_none(zb, input_list@, graph.input_map@, i as int, buf0);
            }
            return Err(Error::InputOutOfRange);
        }
        for t in 0..vlen
            invariant
                vlen == values@.len(),
                s.id + vlen <= usize::MAX,
                s.id + vlen <= buffer@.len(),
                buffer@.len() == buf0.len(),
                forall|u: int|
                    0 <= u < buffer@.len() && !(s.id <= u < s.id + t) ==> #[trigger] buffer@[u]
                        == buf0[u],
                forall|u: int|
                    s.id <= u < s.id + t ==> #[trigger] buffer@[u] == values@[u - s.id],
        {
            buffer.set(s.id + t, values[t]);
        }
        proof {
            assert(buffer@ =~= write_range(buf0, s.id as int, values@));
            assert(bind_one(
                buf0,
                input_list@[i as int].0,
                input_list@[i as int].1@,
                graph.input_map@,
            ) == Some(buffer@));
        }
    }
    proof {
        assert(input_list@.subrange(0, nl as int) =~= input_list@);
        assert(crate::graph::inputs_within(graph.nodes@, buffer@.len() as nat));
    }
    evaluate(&graph.nodes, &buffer, &graph.outputs)
}

/// If binding fails at some prefix position, the whole list fails.
proof fn lemma_bind_none(
    buffer: Seq<Felt>,
    list: Seq<(String, Vec<Felt>)>,
    map: Seq<(u64, InputSignalInfo)>,
    i: int,
    buf0: Seq<Felt>,
)
    requires
        0 <= i < list.len(),
        bind_list(buffer, list.subrange(0, i), map) == Some(buf0),
        bind_one(buf0, list[i].0, list[i].1@, map) is None,
    ensures
        bind_list(buffer, list, map) is None,
    decreases list.len(),
{
    if i == 0 {
        assert(list.subrange(0, 0) =~= Seq::<(String, Vec<Felt>)>::empty());
        assert(buf0 == buffer);
        lemma_bind_prefix_none(buffer, list, map);
    } else {
        match bind_one(buffer, list[0].0, list[0].1@, map) {
            None => {},
            Some(b2) => {
                assert(list.subrange(0, i)[0] == list[0]);
                assert(list.subrange(0, i).drop_first() =~= list.drop_first().subrange(0, i - 1));
                assert(list.drop_first()[i - 1] == list[i]);
                lemma_bind_none(b2, list.drop_first(), map, i - 1, buf0);
            },
        }
    }
}

/// A list whose first entry fails to bind fails as a whole.
proof fn lemma_bind_prefix_none(
    buffer: Seq<Felt>,
    list: Seq<(String, Vec<Felt>)>,
    map: Seq<(u64, InputSignalInfo)>,
)
    requires
        list.len() > 0,
        bind_one(buffer, list[0].0, list[0].1@, map) is None,
    ensures
        bind_list(buffer, list, map) is None,
{
}

} // verus!
