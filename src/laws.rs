//! Laws of the bencode codec, proved over the model.
use crate::decode::{find_from, parse_bytes_at, parse_dict_from, parse_list_from, parse_value, spec_decode};
use crate::encode::{enc, enc_bytes, enc_dict, enc_list};
use crate::text::{lemma_lex_irreflexive, lemma_lex_transitive, lemma_lex_trichotomy, int_text, is_digit, lemma_int_text_value, lemma_nat_text_shape, lex_lt, nat_text};
use crate::value::{lemma_lookup_at, lemma_lookup_none, dict_insert, dict_lookup, lemma_insert_skip, lemma_insert_sorted, sorted_keys, BValue};
use crate::peer::{be32, frame, lemma_be32_round_trip, message_id, payload, read_u32_at, spec_parse_message, MessageModel};
use crate::agent::{is_resolved, spliced, status_after, PeerStatus, SessionEvent};
use crate::torrent::{sha1_digest, spec_info_hash};
use crate::tracker::response_spec;
use crate::error::TrackerErrorModel;
use vstd::string::StringSliceAdditionalSpecFns;
use vstd::prelude::*;

verus! {

proof fn lemma_find_skip(data: Seq<u8>, pos: int, b: u8, j: int)
    requires
        0 <= pos <= j < data.len(),
        data[j] == b,
        forall|k: int| pos <= k < j ==> data[k] != b,
    ensures
        find_from(data, pos, b) == Some(j),
    decreases j - pos,
{
    if pos < j {
        lemma_find_skip(data, pos + 1, b, j);
    }
}

proof fn lemma_window(data: Seq<u8>, pos: int, e: Seq<u8>)
    requires
        0 <= pos,
        pos + e.len() <= data.len(),
        data.subrange(pos, pos + e.len()) == e,
    ensures
        forall|i: int| 0 <= i < e.len() ==> #[trigger] data[pos + i] == e[i],
{
    assert forall|i: int| 0 <= i < e.len() implies #[trigger] data[pos + i] == e[i] by {
        assert(data.subrange(pos, pos + e.len())[i] == data[pos + i]);
    }
}

/// The first byte of an encoding says its kind, and is never the closing `e`.
proof fn lemma_enc_first(v: BValue)
    ensures
        enc(v).len() > 0,
        enc(v)[0] != 101u8,
        v is Bytes ==> is_digit(enc(v)[0]),
{
    match v {
        BValue::Bytes(b) => {
            lemma_nat_text_shape(b.len());
            assert(enc(v)[0] == nat_text(b.len())[0]);
        },
        _ => {},
    }
}

proof fn lemma_parse_bytes_enc(data: Seq<u8>, pos: int, b: Seq<u8>)
    requires
        0 <= pos,
        pos + enc_bytes(b).len() <= data.len(),
        data.subrange(pos, pos + enc_bytes(b).len()) == enc_bytes(b),
    ensures
        parse_bytes_at(data, pos) == Some((b, pos + enc_bytes(b).len())),
        is_digit(data[pos]),
{
    let t = nat_text(b.len());
    let e = enc_bytes(b);
    lemma_nat_text_shape(b.len());
    lemma_window(data, pos, e);
    assert forall|k: int| pos <= k < pos + t.len() implies data[k] != 58u8 by {
        assert(data[pos + (k - pos)] == e[k - pos]);
        assert(e[k - pos] == t[k - pos]);
        assert(is_digit(t[k - pos]));
    }
    assert(data[pos + t.len()] == e[t.len() as int]);
    lemma_find_skip(data, pos, 58u8, pos + t.len());
    assert(data.subrange(pos, pos + t.len()) =~= t) by {
        assert forall|i: int| 0 <= i < t.len() implies data.subrange(pos, pos + t.len())[i] == t[i] by {
            assert(data[pos + i] == e[i]);
        }
    }
    let j = pos + t.len();
    assert(data.subrange(j + 1, j + 1 + b.len()) =~= b) by {
        assert forall|i: int| 0 <= i < b.len() implies data.subrange(j + 1, j + 1 + b.len())[i] == b[i] by {
            assert(data[pos + (t.len() + 1 + i)] == e[t.len() + 1 + i]);
        }
    }
    assert(data[pos + 0] == e[0]);
    assert(e[0] == t[0]);
}

proof fn lemma_enc_list_prefix(l: Seq<BValue>, k: int)
    requires
        0 <= k <= l.len(),
    ensures
        enc_list(l.subrange(0, k)).len() <= enc_list(l).len(),
        enc_list(l).subrange(0, enc_list(l.subrange(0, k)).len() as int) == enc_list(l.subrange(0, k)),
    decreases l.len(),
{
    if k < l.len() {
        let p = l.drop_last();
        lemma_enc_list_prefix(p, k);
        assert(p.subrange(0, k) =~= l.subrange(0, k));
        assert(enc_list(l) == enc_list(p) + enc(l.last()));
        assert(enc_list(l).subrange(0, enc_list(l.subrange(0, k)).len() as int) =~= enc_list(p).subrange(
            0,
            enc_list(l.subrange(0, k)).len() as int,
        ));
    } else {
        assert(l.subrange(0, k) =~= l);
        assert(enc_list(l).subrange(0, enc_list(l).len() as int) =~= enc_list(l));
    }
}

proof fn lemma_enc_dict_prefix(d: Seq<(Seq<u8>, BValue)>, k: int)
    requires
        0 <= k <= d.len(),
    ensures
        enc_dict(d.subrange(0, k)).len() <= enc_dict(d).len(),
        enc_dict(d).subrange(0, enc_dict(d.subrange(0, k)).len() as int) == enc_dict(d.subrange(0, k)),
    decreases d.len(),
{
    if k < d.len() {
        let p = d.drop_last();
        lemma_enc_dict_prefix(p, k);
        assert(p.subrange(0, k) =~= d.subrange(0, k));
        assert(enc_dict(d) == enc_dict(p) + enc_bytes(d.last().0) + enc(d.last().1));
        assert(enc_dict(d).subrange(0, enc_dict(d.subrange(0, k)).len() as int) =~= enc_dict(p).subrange(
            0,
            enc_dict(d.subrange(0, k)).len() as int,
        ));
    } else {
        assert(d.subrange(0, k) =~= d);
        assert(enc_dict(d).subrange(0, enc_dict(d).len() as int) =~= enc_dict(d));
    }
}

/// The encoding of `v`, found at `pos` in any surrounding bytes, parses back
/// to `v` and ends where the encoding ends.
pub proof fn lemma_parse_enc(data: Seq<u8>, pos: int, v: BValue)
    requires
        v.wf(),
        0 <= pos,
        pos + enc(v).len() <= data.len(),
        data.subrange(pos, pos + enc(v).len()) == enc(v),
    ensures
        parse_value(data, pos) == Some((v, pos + enc(v).len())),
    decreases v, 0int,
{
    let e = enc(v);
    lemma_window(data, pos, e);
    lemma_enc_first(v);
    assert(data[pos + 0] == e[0]);
    match v {
        BValue::Int(x) => {
            let t = int_text(x);
            assert(e == seq![105u8] + t + seq![101u8]);
            lemma_nat_text_shape(if x < 0 { (-x) as nat } else { x as nat });
            assert forall|k: int| pos + 1 <= k < pos + 1 + t.len() implies data[k] != 101u8 by {
                assert(data[pos + (k - pos)] == e[k - pos]);
                assert(e[k - pos] == t[k - pos - 1]);
                if x < 0 {
                    if k - pos - 1 > 0 {
                        assert(t[k - pos - 1] == nat_text((-x) as nat)[k - pos - 2]);
                        assert(is_digit(nat_text((-x) as nat)[k - pos - 2]));
                    }
                } else {
                    assert(is_digit(nat_text(x as nat)[k - pos - 1]));
                }
            }
            assert(data[pos + (t.len() + 1)] == e[t.len() + 1int]);
            lemma_find_skip(data, pos + 1, 101u8, pos + 1 + t.len());
            assert(data.subrange(pos + 1, pos + 1 + t.len()) =~= t) by {
                assert forall|i: int| 0 <= i < t.len() implies data.subrange(pos + 1, pos + 1 + t.len())[i] == t[i] by {
                    assert(data[pos + (1 + i)] == e[1 + i]);
                }
            }
            lemma_int_text_value(x);
        },
        BValue::Bytes(b) => {
            lemma_parse_bytes_enc(data, pos, b);
        },
        BValue::List(l) => {
            let body = enc_list(l);
            assert(e == seq![108u8] + body + seq![101u8]);
            assert(data.subrange(pos + 1, pos + 1 + body.len()) =~= body) by {
                assert forall|i: int| 0 <= i < body.len() implies data.subrange(pos + 1, pos + 1 + body.len())[i] == body[i] by {
                    assert(data[pos + (1 + i)] == e[1 + i]);
                }
            }
            assert(data[pos + (1 + body.len())] == e[1int + body.len()]);
            assert(l.subrange(0, 0) =~= Seq::<BValue>::empty());
            lemma_parse_list_items(data, pos + 1, l, 0);
        },
        BValue::Dict(d) => {
            let body = enc_dict(d);
            assert(e == seq![100u8] + body + seq![101u8]);
            assert(data.subrange(pos + 1, pos + 1 + body.len()) =~= body) by {
                assert forall|i: int| 0 <= i < body.len() implies data.subrange(pos + 1, pos + 1 + body.len())[i] == body[i] by {
                    assert(data[pos + (1 + i)] == e[1 + i]);
                }
            }
            assert(data[pos + (1 + body.len())] == e[1int + body.len()]);
            assert(d.subrange(0, 0) =~= Seq::<(Seq<u8>, BValue)>::empty());
            lemma_parse_dict_items(data, pos + 1, d, 0);
        },
    }
}

proof fn lemma_parse_list_items(data: Seq<u8>, base: int, l: Seq<BValue>, k: int)
    requires
        forall|i: int| 0 <= i < l.len() ==> (#[trigger] l[i]).wf(),
        0 <= k <= l.len(),
        0 <= base,
        base + enc_list(l).len() < data.len(),
        data.subrange(base, base + enc_list(l).len()) == enc_list(l),
        data[base + enc_list(l).len()] == 101u8,
    ensures
        parse_list_from(data, base + enc_list(l.subrange(0, k)).len(), l.subrange(0, k))
            == Some((l, base + enc_list(l).len() + 1)),
    decreases l, l.len() - k,
{
    lemma_enc_list_prefix(l, k);
    let whole = enc_list(l);
    let p = base + enc_list(l.subrange(0, k)).len();
    lemma_window(data, base, whole);
    if k == l.len() {
        assert(l.subrange(0, k) =~= l);
    } else {
        lemma_enc_list_prefix(l, k + 1);
        let pre = l.subrange(0, k);
        let pre1 = l.subrange(0, k + 1);
        assert(pre1.drop_last() =~= pre);
        assert(enc_list(pre1) == enc_list(pre) + enc(l[k]));
        let item = enc(l[k]);
        assert(data.subrange(p, p + item.len()) =~= item) by {
            assert forall|i: int| 0 <= i < item.len() implies data.subrange(p, p + item.len())[i] == item[i] by {
                let off = enc_list(pre).len() + i;
                assert(whole.subrange(0, enc_list(pre1).len() as int)[off] == enc_list(pre1)[off]);
                assert(data[base + off] == whole[off]);
            }
        }
        assert(decreases_to!(l => l[k]));
        lemma_parse_enc(data, p, l[k]);
        lemma_enc_first(l[k]);
        assert(data[p] == item[0]);
        assert(pre.push(l[k]) =~= pre1);
        lemma_parse_list_items(data, base, l, k + 1);
    }
}

proof fn lemma_parse_dict_items(data: Seq<u8>, base: int, d: Seq<(Seq<u8>, BValue)>, k: int)
    requires
        sorted_keys(d),
        forall|i: int| 0 <= i < d.len() ==> (#[trigger] d[i]).1.wf(),
        0 <= k <= d.len(),
        0 <= base,
        base + enc_dict(d).len() < data.len(),
        data.subrange(base, base + enc_dict(d).len()) == enc_dict(d),
        data[base + enc_dict(d).len()] == 101u8,
    ensures
        parse_dict_from(data, base + enc_dict(d.subrange(0, k)).len(), d.subrange(0, k))
            == Some((d, base + enc_dict(d).len() + 1)),
    decreases d, d.len() - k,
{
    lemma_enc_dict_prefix(d, k);
    let whole = enc_dict(d);
    let p = base + enc_dict(d.subrange(0, k)).len();
    lemma_window(data, base, whole);
    if k == d.len() {
        assert(d.subrange(0, k) =~= d);
    } else {
        lemma_enc_dict_prefix(d, k + 1);
        let pre = d.subrange(0, k);
        let pre1 = d.subrange(0, k + 1);
        assert(pre1.drop_last() =~= pre);
        let kb = enc_bytes(d[k].0);
        let vb = enc(d[k].1);
        assert(enc_dict(pre1) == enc_dict(pre) + kb + vb);
        assert(data.subrange(p, p + kb.len()) =~= kb) by {
            assert forall|i: int| 0 <= i < kb.len() implies data.subrange(p, p + kb.len())[i] == kb[i] by {
                let off = enc_dict(pre).len() + i;
                assert(whole.subrange(0, enc_dict(pre1).len() as int)[off] == enc_dict(pre1)[off]);
                assert(data[base + off] == whole[off]);
            }
        }
        let value_at = p + kb.len();
        assert(data.subrange(value_at, value_at + vb.len()) =~= vb) by {
            assert forall|i: int| 0 <= i < vb.len() implies data.subrange(value_at, value_at + vb.len())[i] == vb[i] by {
                let off = enc_dict(pre).len() + kb.len() + i;
                assert(whole.subrange(0, enc_dict(pre1).len() as int)[off] == enc_dict(pre1)[off]);
                assert(data[base + off] == whole[off]);
            }
        }
        lemma_parse_bytes_enc(data, p, d[k].0);
        assert(decreases_to!(d => d[k]));
        assert(decreases_to!(d[k] => d[k].1));
        lemma_parse_enc(data, value_at, d[k].1);
        assert forall|j: int| 0 <= j < k implies lex_lt(#[trigger] pre[j].0, d[k].0) by {
            assert(pre[j] == d[j]);
        }
        lemma_insert_skip(pre, d[k].0, d[k].1, k);
        assert(pre.subrange(0, k) =~= pre);
        assert(pre.subrange(k, k) =~= Seq::<(Seq<u8>, BValue)>::empty());
        assert(dict_insert(pre, d[k].0, d[k].1) =~= pre1);
        lemma_parse_dict_items(data, base, d, k + 1);
    }
}

/// Round trip: decoding the encoding of any well-formed value gives that value.
/// Every [`crate::value::Value`] is well-formed (`encode` proves it of the
/// value it is given), so `encode` states the round trip for every value.
pub proof fn lemma_decode_encode(v: BValue)
    requires
        v.wf(),
    ensures
        spec_decode(enc(v)) == Some(v),
{
    assert(enc(v).subrange(0, enc(v).len() as int) =~= enc(v));
    lemma_parse_enc(enc(v), 0, v);
}

/// Canonical order: inserting entries into a dictionary, in any order, leaves
/// its keys in strictly ascending byte order, which is the order in which the
/// encoder writes them.
pub proof fn lemma_insert_keeps_order(d: Seq<(Seq<u8>, BValue)>, k: Seq<u8>, v: BValue)
    requires
        sorted_keys(d),
    ensures
        sorted_keys(dict_insert(d, k, v)),
{
    lemma_insert_sorted(d, k, v);
}

/// Info-hash of a canonical descriptor: when the descriptor's bytes are the
/// canonical encoding of a dictionary, the info-hash is the digest of the
/// canonical encoding of its `info` entry, byte for byte as it stands in the
/// descriptor. (Parsing the same bytes twice gives the same hash, since the
/// hash is a function of the bytes.)
pub proof fn lemma_info_hash_of_canonical(v: BValue)
    requires
        v.wf(),
        v is Dict,
        dict_lookup(v->Dict_0, "info".spec_bytes()) matches Some(BValue::Dict(_)),
    ensures
        spec_info_hash(enc(v)) == Some(sha1_digest(enc(dict_lookup(v->Dict_0, "info".spec_bytes())->0))),
{
    lemma_decode_encode(v);
}

proof fn lemma_read_be32(c: Seq<u8>, at: int, x: u32)
    requires
        0 <= at,
        at + 4 <= c.len(),
        c.subrange(at, at + 4) == be32(x),
    ensures
        read_u32_at(c, at) == Some(x),
{
    assert(c[at] == be32(x)[0]);
    assert(c[at + 1] == be32(x)[1]);
    assert(c[at + 2] == be32(x)[2]);
    assert(c[at + 3] == be32(x)[3]);
    lemma_be32_round_trip(x);
}

/// Peer message round trip: decoding the frame of a message gives the message
/// back (for every message whose payload a frame can announce).
pub proof fn lemma_message_round_trip(m: MessageModel)
    requires
        payload(m).len() + 1 <= u32::MAX,
    ensures
        spec_parse_message(frame(m)) == Ok::<MessageModel, crate::error::PeerError>(m),
{
    let c = frame(m);
    let p = payload(m);
    let n = (1 + p.len()) as u32;
    assert(c == be32(n) + seq![message_id(m)] + p);
    assert(c[4] == message_id(m));
    assert(c.subrange(5, c.len() as int) =~= p);
    match m {
        MessageModel::Have(i) => {
            assert(c.subrange(5, 9) =~= be32(i));
            lemma_read_be32(c, 5, i);
        },
        MessageModel::Request(i, b, l) | MessageModel::Cancel(i, b, l) => {
            assert(c.subrange(5, 9) =~= be32(i));
            assert(c.subrange(9, 13) =~= be32(b));
            assert(c.subrange(13, 17) =~= be32(l));
            lemma_read_be32(c, 5, i);
            lemma_read_be32(c, 9, b);
            lemma_read_be32(c, 13, l);
        },
        MessageModel::Piece(i, b, blk) => {
            assert(c.subrange(5, 9) =~= be32(i));
            assert(c.subrange(9, 13) =~= be32(b));
            lemma_read_be32(c, 5, i);
            lemma_read_be32(c, 9, b);
            assert(c.subrange(13, c.len() as int) =~= blk);
        },
        _ => {},
    }
}

proof fn lemma_spliced_index(d: Seq<u8>, o: int, b: Seq<u8>, k: int)
    requires
        0 <= o,
        o + b.len() <= d.len(),
    ensures
        spliced(d, o, b).len() == d.len(),
        0 <= k < d.len() ==> spliced(d, o, b)[k] == if o <= k < o + b.len() {
            b[k - o]
        } else {
            d[k]
        },
{
}

/// Write-order independence: two blocks written to disjoint ranges of a
/// buffer give the same bytes in either order.
pub proof fn lemma_disjoint_writes_commute(d: Seq<u8>, o1: int, b1: Seq<u8>, o2: int, b2: Seq<u8>)
    requires
        0 <= o1,
        o1 + b1.len() <= d.len(),
        0 <= o2,
        o2 + b2.len() <= d.len(),
        o1 + b1.len() <= o2 || o2 + b2.len() <= o1,
    ensures
        spliced(spliced(d, o1, b1), o2, b2) == spliced(spliced(d, o2, b2), o1, b1),
{
    let x = spliced(spliced(d, o1, b1), o2, b2);
    let y = spliced(spliced(d, o2, b2), o1, b1);
    assert forall|k: int| 0 <= k < d.len() implies x[k] == y[k] by {
        lemma_spliced_index(d, o1, b1, k);
        lemma_spliced_index(d, o2, b2, k);
        lemma_spliced_index(spliced(d, o1, b1), o2, b2, k);
        lemma_spliced_index(spliced(d, o2, b2), o1, b1, k);
    }
    lemma_spliced_index(d, o1, b1, 0);
    lemma_spliced_index(d, o2, b2, 0);
    assert(x =~= y);
}

/// Peer isolation: a failed connection or handshake of peer `i` changes no
/// other peer's status, and when every other peer is finished or failed, that
/// failure completes the session, whatever the outcome of the others.
pub proof fn lemma_peer_failure_isolated(statuses: Seq<PeerStatus>, i: usize, e: SessionEvent)
    requires
        i < statuses.len(),
        e == SessionEvent::ConnectFailed(i) || e == SessionEvent::Errored(i),
        statuses[i as int] == PeerStatus::Connecting,
    ensures
        status_after(statuses[i as int], i as int, e) == PeerStatus::Failed,
        forall|j: int| 0 <= j < statuses.len() && j != i ==> #[trigger] status_after(statuses[j], j, e) == statuses[j],
        (forall|j: int| 0 <= j < statuses.len() && j != i ==> is_resolved(#[trigger] statuses[j]))
            ==> forall|j: int| 0 <= j < statuses.len() ==> is_resolved(#[trigger] status_after(statuses[j], j, e)),
{
}

/// Tracker failure: an answer whose dictionary holds a `failure reason` byte
/// string is that failure, carrying the reason, and never a success.
pub proof fn lemma_failure_reason_wins(contents: Seq<u8>)
    requires
        spec_decode(contents) matches Some(BValue::Dict(d)) && dict_lookup(d, "failure reason".spec_bytes()) matches Some(
            BValue::Bytes(_),
        ),
    ensures
        response_spec(contents) == Err::<(nat, Seq<(Seq<u8>, Seq<u8>, u16)>), TrackerErrorModel>(
            TrackerErrorModel::Failure(dict_lookup(spec_decode(contents)->0->Dict_0, "failure reason".spec_bytes())->0->Bytes_0),
        ),
{
}

/// Insertion order does not matter: inserting two different keys into a
/// dictionary gives the same entries in either order.
pub proof fn lemma_insert_commutes(d: Seq<(Seq<u8>, BValue)>, k1: Seq<u8>, v1: BValue, k2: Seq<u8>, v2: BValue)
    requires
        k1 != k2,
    ensures
        dict_insert(dict_insert(d, k1, v1), k2, v2) == dict_insert(dict_insert(d, k2, v2), k1, v1),
    decreases d.len(),
{
    lemma_lex_trichotomy(k1, k2);
    lemma_lex_irreflexive(k1);
    lemma_lex_irreflexive(k2);
    if d.len() == 0 {
        let e = Seq::<(Seq<u8>, BValue)>::empty();
        assert(seq![(k1, v1)].drop_first() =~= e);
        assert(seq![(k2, v2)].drop_first() =~= e);
        assert(dict_insert(e, k1, v1) == seq![(k1, v1)]);
        assert(dict_insert(e, k2, v2) == seq![(k2, v2)]);
        if lex_lt(k1, k2) {
            assert(dict_insert(seq![(k1, v1)], k2, v2) == seq![(k1, v1)] + seq![(k2, v2)]);
            assert(dict_insert(seq![(k2, v2)], k1, v1) == seq![(k1, v1)] + seq![(k2, v2)]);
        } else {
            assert(dict_insert(seq![(k1, v1)], k2, v2) == seq![(k2, v2)] + seq![(k1, v1)]);
            assert(dict_insert(seq![(k2, v2)], k1, v1) == seq![(k2, v2)] + seq![(k1, v1)]);
        }
    } else {
        let h = d[0].0;
        let t = d.drop_first();
        lemma_lex_trichotomy(k1, h);
        lemma_lex_trichotomy(k2, h);
        let a = dict_insert(d, k1, v1);
        let b = dict_insert(d, k2, v2);
        if k1 != h && k2 != h && lex_lt(h, k1) && lex_lt(h, k2) {
            lemma_insert_commutes(t, k1, v1, k2, v2);
            assert(a == seq![d[0]] + dict_insert(t, k1, v1));
            assert(b == seq![d[0]] + dict_insert(t, k2, v2));
            assert((seq![d[0]] + dict_insert(t, k1, v1))[0] == d[0]);
            assert((seq![d[0]] + dict_insert(t, k2, v2))[0] == d[0]);
            assert((seq![d[0]] + dict_insert(t, k1, v1)).drop_first() =~= dict_insert(t, k1, v1));
            assert((seq![d[0]] + dict_insert(t, k2, v2)).drop_first() =~= dict_insert(t, k2, v2));
        } else if k1 == h {
            assert(a == d.update(0, (k1, v1)));
            assert(a[0] == (k1, v1));
            assert(a.drop_first() =~= t);
            if lex_lt(k2, h) {
                assert(b == seq![(k2, v2)] + d);
                let bb = seq![(k2, v2)] + d;
                assert(bb[0] == (k2, v2));
                assert(bb.drop_first() =~= d);
                assert(dict_insert(a, k2, v2) == seq![(k2, v2)] + a);
                assert(dict_insert(bb, k1, v1) == seq![(k2, v2)] + a);
            } else {
                assert(b == seq![d[0]] + dict_insert(t, k2, v2));
                let bb = seq![d[0]] + dict_insert(t, k2, v2);
                assert(bb[0] == d[0]);
                assert(bb.drop_first() =~= dict_insert(t, k2, v2));
                assert(dict_insert(a, k2, v2) == seq![(k1, v1)] + dict_insert(t, k2, v2));
                assert(dict_insert(bb, k1, v1) =~= seq![(k1, v1)] + dict_insert(t, k2, v2));
            }
        } else if k2 == h {
            assert(b == d.update(0, (k2, v2)));
            assert(b[0] == (k2, v2));
            assert(b.drop_first() =~= t);
            if lex_lt(k1, h) {
                assert(a == seq![(k1, v1)] + d);
                let aa = seq![(k1, v1)] + d;
                assert(aa[0] == (k1, v1));
                assert(aa.drop_first() =~= d);
                assert(dict_insert(b, k1, v1) == seq![(k1, v1)] + b);
                assert(dict_insert(aa, k2, v2) == seq![(k1, v1)] + b);
            } else {
                assert(a == seq![d[0]] + dict_insert(t, k1, v1));
                let aa = seq![d[0]] + dict_insert(t, k1, v1);
                assert(aa[0] == d[0]);
                assert(aa.drop_first() =~= dict_insert(t, k1, v1));
                assert(dict_insert(b, k1, v1) == seq![(k2, v2)] + dict_insert(t, k1, v1));
                assert(dict_insert(aa, k2, v2) =~= seq![(k2, v2)] + dict_insert(t, k1, v1));
            }
        } else if lex_lt(k1, h) && lex_lt(k2, h) {
            let aa = seq![(k1, v1)] + d;
            let bb = seq![(k2, v2)] + d;
            assert(a == aa);
            assert(b == bb);
            assert(aa[0] == (k1, v1) && aa.drop_first() =~= d);
            assert(bb[0] == (k2, v2) && bb.drop_first() =~= d);
            if lex_lt(k1, k2) {
                assert(dict_insert(aa, k2, v2) == seq![(k1, v1)] + dict_insert(d, k2, v2));
                assert(dict_insert(bb, k1, v1) == seq![(k1, v1)] + bb);
            } else {
                assert(dict_insert(bb, k1, v1) == seq![(k2, v2)] + dict_insert(d, k1, v1));
                assert(dict_insert(aa, k2, v2) == seq![(k2, v2)] + aa);
            }
        } else if lex_lt(k1, h) {
            let aa = seq![(k1, v1)] + d;
            let bb = seq![d[0]] + dict_insert(t, k2, v2);
            assert(a == aa);
            assert(b == bb);
            assert(aa[0] == (k1, v1) && aa.drop_first() =~= d);
            assert(bb[0] == d[0] && bb.drop_first() =~= dict_insert(t, k2, v2));
            lemma_lex_transitive(k1, h, k2);
            assert(dict_insert(aa, k2, v2) == seq![(k1, v1)] + dict_insert(d, k2, v2));
            assert(dict_insert(bb, k1, v1) == seq![(k1, v1)] + bb);
        } else {
            let aa = seq![d[0]] + dict_insert(t, k1, v1);
            let bb = seq![(k2, v2)] + d;
            assert(a == aa);
            assert(b == bb);
            assert(aa[0] == d[0] && aa.drop_first() =~= dict_insert(t, k1, v1));
            assert(bb[0] == (k2, v2) && bb.drop_first() =~= d);
            lemma_lex_transitive(k2, h, k1);
            assert(dict_insert(bb, k1, v1) == seq![(k2, v2)] + dict_insert(d, k1, v1));
            assert(dict_insert(aa, k2, v2) == seq![(k2, v2)] + aa);
        }
    }
}

/// The buffer after the writes `ws` (offset and block each), in order.
pub open spec fn apply_writes(d: Seq<u8>, ws: Seq<(int, Seq<u8>)>) -> Seq<u8>
    decreases ws.len(),
{
    if ws.len() == 0 {
        d
    } else {
        spliced(apply_writes(d, ws.drop_last()), ws.last().0, ws.last().1)
    }
}

/// Every write lies inside a buffer of `n` bytes, and no two overlap.
pub open spec fn disjoint_in_bounds(ws: Seq<(int, Seq<u8>)>, n: int) -> bool {
    &&& forall|j: int| 0 <= j < ws.len() ==> 0 <= (#[trigger] ws[j]).0 && ws[j].0 + ws[j].1.len() <= n
    &&& forall|i: int, j: int|
        0 <= i < j < ws.len() ==> (#[trigger] ws[i]).0 + ws[i].1.len() <= (#[trigger] ws[j]).0 || ws[j].0
            + ws[j].1.len() <= ws[i].0
}

/// Write-order independence for any number of writes: after disjoint
/// writes, in whatever order they came, each range holds its block and every
/// other byte keeps its old value.
pub proof fn lemma_disjoint_writes(d: Seq<u8>, ws: Seq<(int, Seq<u8>)>)
    requires
        disjoint_in_bounds(ws, d.len() as int),
    ensures
        apply_writes(d, ws).len() == d.len(),
        forall|j: int| 0 <= j < ws.len() ==> apply_writes(d, ws).subrange(
            (#[trigger] ws[j]).0,
            ws[j].0 + ws[j].1.len(),
        ) == ws[j].1,
        forall|k: int|
            0 <= k < d.len() && (forall|j: int| 0 <= j < ws.len() ==> !((#[trigger] ws[j]).0 <= k < ws[j].0 + ws[j].1.len()))
                ==> #[trigger] apply_writes(d, ws)[k] == d[k],
    decreases ws.len(),
{
    if ws.len() > 0 {
        let p = ws.drop_last();
        let w = ws.last();
        assert(disjoint_in_bounds(p, d.len() as int)) by {
            assert forall|j: int| 0 <= j < p.len() implies 0 <= (#[trigger] p[j]).0 && p[j].0 + p[j].1.len() <= d.len() by {
                assert(p[j] == ws[j]);
            }
            assert forall|i: int, j: int| 0 <= i < j < p.len() implies (#[trigger] p[i]).0 + p[i].1.len() <= (#[trigger] p[j]).0
                || p[j].0 + p[j].1.len() <= p[i].0 by {
                assert(p[i] == ws[i] && p[j] == ws[j]);
            }
        }
        lemma_disjoint_writes(d, p);
        let before = apply_writes(d, p);
        let after = apply_writes(d, ws);
        assert(0 <= ws[ws.len() - 1].0);
        lemma_spliced_index(before, w.0, w.1, 0);
        assert forall|j: int| 0 <= j < ws.len() implies after.subrange((#[trigger] ws[j]).0, ws[j].0 + ws[j].1.len()) == ws[j].1 by {
            let o = ws[j].0;
            let b = ws[j].1;
            assert forall|t: int| 0 <= t < b.len() implies after.subrange(o, o + b.len())[t] == b[t] by {
                lemma_spliced_index(before, w.0, w.1, o + t);
                if j < ws.len() - 1 {
                    assert(p[j] == ws[j]);
                    assert(ws[j].0 + ws[j].1.len() <= ws[ws.len() - 1].0 || ws[ws.len() - 1].0
                        + ws[ws.len() - 1].1.len() <= ws[j].0);
                    assert(before.subrange(p[j].0, p[j].0 + p[j].1.len()) == p[j].1);
                    assert(before.subrange(o, o + b.len())[t] == before[o + t]);
                }
            }
            assert(after.subrange(o, o + b.len()) =~= b);
        }
        assert forall|k: int|
            0 <= k < d.len() && (forall|j: int| 0 <= j < ws.len() ==> !((#[trigger] ws[j]).0 <= k < ws[j].0 + ws[j].1.len()))
            implies #[trigger] after[k] == d[k] by {
            lemma_spliced_index(before, w.0, w.1, k);
            assert(!(ws[ws.len() - 1].0 <= k < ws[ws.len() - 1].0 + ws[ws.len() - 1].1.len()));
            assert forall|j: int| 0 <= j < p.len() implies !((#[trigger] p[j]).0 <= k < p[j].0 + p[j].1.len()) by {
                assert(p[j] == ws[j]);
            }
        }
    }
}

/// The dictionary `d` after inserting `pairs`, one after another.
pub open spec fn insert_all(d: Seq<(Seq<u8>, BValue)>, pairs: Seq<(Seq<u8>, BValue)>) -> Seq<(Seq<u8>, BValue)>
    decreases pairs.len(),
{
    if pairs.len() == 0 {
        d
    } else {
        dict_insert(insert_all(d, pairs.drop_last()), pairs.last().0, pairs.last().1)
    }
}

/// No two pairs share a key.
pub open spec fn distinct_keys(pairs: Seq<(Seq<u8>, BValue)>) -> bool {
    forall|i: int, j: int| 0 <= i < j < pairs.len() ==> (#[trigger] pairs[i]).0 != (#[trigger] pairs[j]).0
}

proof fn lemma_lookup_insert(d: Seq<(Seq<u8>, BValue)>, k: Seq<u8>, v: BValue, k2: Seq<u8>)
    ensures
        dict_lookup(dict_insert(d, k, v), k2) == if k2 == k {
            Some(v)
        } else {
            dict_lookup(d, k2)
        },
    decreases d.len(),
{
    let r = dict_insert(d, k, v);
    if d.len() == 0 {
        assert(r[0] == (k, v));
        assert(r.drop_first() =~= Seq::<(Seq<u8>, BValue)>::empty());
        assert(dict_lookup(r.drop_first(), k2) is None);
    } else if d[0].0 == k {
        assert(r[0] == (k, v));
        assert(r.drop_first() =~= d.drop_first());
    } else if lex_lt(k, d[0].0) {
        assert(r[0] == (k, v));
        assert(r.drop_first() =~= d);
    } else {
        lemma_lookup_insert(d.drop_first(), k, v, k2);
        assert(r[0] == d[0]);
        assert(r.drop_first() =~= dict_insert(d.drop_first(), k, v));
    }
}

proof fn lemma_lookup_some(d: Seq<(Seq<u8>, BValue)>, k: Seq<u8>)
    ensures
        dict_lookup(d, k) is Some ==> exists|i: int| 0 <= i < d.len() && (#[trigger] d[i]).0 == k && d[i].1 == dict_lookup(d, k)->0,
    decreases d.len(),
{
    if d.len() > 0 && d[0].0 != k {
        lemma_lookup_some(d.drop_first(), k);
        if dict_lookup(d, k) is Some {
            let i = choose|i: int| 0 <= i < d.drop_first().len() && (#[trigger] d.drop_first()[i]).0 == k
                && d.drop_first()[i].1 == dict_lookup(d.drop_first(), k)->0;
            assert(d[i + 1] == d.drop_first()[i]);
        }
    }
}

proof fn lemma_lookup_sorted_at(d: Seq<(Seq<u8>, BValue)>, i: int)
    requires
        sorted_keys(d),
        0 <= i < d.len(),
    ensures
        dict_lookup(d, d[i].0) == Some(d[i].1),
{
    assert forall|j: int| 0 <= j < i implies (#[trigger] d[j]).0 != d[i].0 by {
        lemma_lex_irreflexive(d[i].0);
    }
    lemma_lookup_at(d, d[i].0, i);
}

/// Two dictionaries with sorted keys and the same lookups are equal.
proof fn lemma_sorted_unique(d1: Seq<(Seq<u8>, BValue)>, d2: Seq<(Seq<u8>, BValue)>)
    requires
        sorted_keys(d1),
        sorted_keys(d2),
        forall|k: Seq<u8>| #[trigger] dict_lookup(d1, k) == dict_lookup(d2, k),
    ensures
        d1 == d2,
    decreases d1.len() + d2.len(),
{
    if d1.len() == 0 && d2.len() > 0 {
        lemma_lookup_sorted_at(d2, 0);
        assert(dict_lookup(d1, d2[0].0) is None);
    } else if d1.len() > 0 && d2.len() == 0 {
        lemma_lookup_sorted_at(d1, 0);
        assert(dict_lookup(d2, d1[0].0) is None);
    } else if d1.len() > 0 {
        let a = d1[0];
        let b = d2[0];
        lemma_lookup_sorted_at(d1, 0);
        lemma_lookup_sorted_at(d2, 0);
        assert(dict_lookup(d2, a.0) == Some(a.1));
        assert(dict_lookup(d1, b.0) == Some(b.1));
        lemma_lookup_some(d2, a.0);
        lemma_lookup_some(d1, b.0);
        let i = choose|i: int| 0 <= i < d2.len() && (#[trigger] d2[i]).0 == a.0 && d2[i].1 == a.1;
        let i2 = choose|i2: int| 0 <= i2 < d1.len() && (#[trigger] d1[i2]).0 == b.0 && d1[i2].1 == b.1;
        lemma_lex_irreflexive(a.0);
        lemma_lex_trichotomy(a.0, b.0);
        if i > 0 {
            assert(lex_lt(b.0, a.0));
            if i2 > 0 {
                assert(lex_lt(a.0, b.0));
            }
        }
        assert(a.0 == b.0);
        assert(a == b);
        let t1 = d1.drop_first();
        let t2 = d2.drop_first();
        assert(sorted_keys(t1)) by {
            assert forall|x: int, y: int| 0 <= x < y < t1.len() implies lex_lt(#[trigger] t1[x].0, #[trigger] t1[y].0) by {
                assert(t1[x] == d1[x + 1] && t1[y] == d1[y + 1]);
            }
        }
        assert(sorted_keys(t2)) by {
            assert forall|x: int, y: int| 0 <= x < y < t2.len() implies lex_lt(#[trigger] t2[x].0, #[trigger] t2[y].0) by {
                assert(t2[x] == d2[x + 1] && t2[y] == d2[y + 1]);
            }
        }
        assert forall|k: Seq<u8>| #[trigger] dict_lookup(t1, k) == dict_lookup(t2, k) by {
            if k == a.0 {
                assert forall|x: int| 0 <= x < t1.len() implies (#[trigger] t1[x]).0 != k by {
                    assert(t1[x] == d1[x + 1]);
                }
                assert forall|x: int| 0 <= x < t2.len() implies (#[trigger] t2[x]).0 != k by {
                    assert(t2[x] == d2[x + 1]);
                }
                lemma_lookup_none(t1, k);
                lemma_lookup_none(t2, k);
            } else {
                assert(dict_lookup(d1, k) == dict_lookup(t1, k));
                assert(dict_lookup(d2, k) == dict_lookup(t2, k));
            }
        }
        lemma_sorted_unique(t1, t2);
        assert(d1 =~= seq![a] + t1);
        assert(d2 =~= seq![b] + t2);
    }
}

proof fn lemma_insert_all_lookup(pairs: Seq<(Seq<u8>, BValue)>)
    requires
        distinct_keys(pairs),
    ensures
        sorted_keys(insert_all(Seq::empty(), pairs)),
        forall|j: int| 0 <= j < pairs.len() ==> dict_lookup(insert_all(Seq::empty(), pairs), (#[trigger] pairs[j]).0) == Some(pairs[j].1),
        forall|k: Seq<u8>| (forall|j: int| 0 <= j < pairs.len() ==> (#[trigger] pairs[j]).0 != k)
            ==> #[trigger] dict_lookup(insert_all(Seq::empty(), pairs), k) is None,
    decreases pairs.len(),
{
    let e = Seq::<(Seq<u8>, BValue)>::empty();
    if pairs.len() == 0 {
        assert forall|k: Seq<u8>| #[trigger] dict_lookup(insert_all(e, pairs), k) is None by {
        }
    } else {
        let p = pairs.drop_last();
        let w = pairs.last();
        assert(distinct_keys(p)) by {
            assert forall|i: int, j: int| 0 <= i < j < p.len() implies (#[trigger] p[i]).0 != (#[trigger] p[j]).0 by {
                assert(p[i] == pairs[i] && p[j] == pairs[j]);
            }
        }
        lemma_insert_all_lookup(p);
        let r0 = insert_all(e, p);
        lemma_insert_sorted(r0, w.0, w.1);
        assert forall|j: int| 0 <= j < pairs.len() implies dict_lookup(insert_all(e, pairs), (#[trigger] pairs[j]).0) == Some(pairs[j].1) by {
            lemma_lookup_insert(r0, w.0, w.1, pairs[j].0);
            if j < pairs.len() - 1 {
                assert(p[j] == pairs[j]);
                assert(pairs[j].0 != pairs[pairs.len() - 1].0);
            }
        }
        assert forall|k: Seq<u8>| (forall|j: int| 0 <= j < pairs.len() ==> (#[trigger] pairs[j]).0 != k)
            implies #[trigger] dict_lookup(insert_all(e, pairs), k) is None by {
            lemma_lookup_insert(r0, w.0, w.1, k);
            assert(pairs[pairs.len() - 1].0 != k);
            assert forall|j: int| 0 <= j < p.len() implies (#[trigger] p[j]).0 != k by {
                assert(p[j] == pairs[j]);
            }
        }
    }
}

/// Canonical order for any number of entries: inserting pairs with distinct
/// keys gives sorted keys, and the same pairs inserted in any other order give
/// the same dictionary, hence the same encoding.
pub proof fn lemma_insertion_order_irrelevant(p: Seq<(Seq<u8>, BValue)>, q: Seq<(Seq<u8>, BValue)>)
    requires
        distinct_keys(p),
        distinct_keys(q),
        forall|x: (Seq<u8>, BValue)| p.contains(x) <==> q.contains(x),
    ensures
        sorted_keys(insert_all(Seq::empty(), p)),
        insert_all(Seq::empty(), p) == insert_all(Seq::empty(), q),
        enc(BValue::Dict(insert_all(Seq::empty(), p))) == enc(BValue::Dict(insert_all(Seq::empty(), q))),
{
    let e = Seq::<(Seq<u8>, BValue)>::empty();
    lemma_insert_all_lookup(p);
    lemma_insert_all_lookup(q);
    let rp = insert_all(e, p);
    let rq = insert_all(e, q);
    assert forall|k: Seq<u8>| #[trigger] dict_lookup(rp, k) == dict_lookup(rq, k) by {
        if exists|j: int| 0 <= j < p.len() && (#[trigger] p[j]).0 == k {
            let j = choose|j: int| 0 <= j < p.len() && (#[trigger] p[j]).0 == k;
            assert(p.contains(p[j]));
            assert(q.contains(p[j]));
            let j2 = choose|j2: int| 0 <= j2 < q.len() && q[j2] == p[j];
            assert(dict_lookup(rq, q[j2].0) == Some(q[j2].1));
        } else if exists|j: int| 0 <= j < q.len() && (#[trigger] q[j]).0 == k {
            let j = choose|j: int| 0 <= j < q.len() && (#[trigger] q[j]).0 == k;
            assert(q.contains(q[j]));
            assert(p.contains(q[j]));
            let j2 = choose|j2: int| 0 <= j2 < p.len() && p[j2] == q[j];
            assert(p[j2].0 == k);
        } else {
        }
    }
    lemma_sorted_unique(rp, rq);
}

} // verus!
