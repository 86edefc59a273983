//! Canonical bencode encoding.
use crate::text::{int_text, nat_text, push_decimal, push_signed_decimal};
use crate::decode::spec_decode;
use crate::laws::lemma_decode_encode;
use crate::value::{
    entries_view, lemma_entries_view, lemma_entry_decreases, lemma_values_view,
    lemma_values_view_push, values_view, BValue, Dictionary, Value,
};
use vstd::prelude::*;

verus! {

/// `<length>:<bytes>`.
pub open spec fn enc_bytes(b: Seq<u8>) -> Seq<u8> {
    nat_text(b.len()) + seq![58u8] + b
}

/// The canonical encoding: `i<decimal>e`, `<length>:<bytes>`, `l...e` and
/// `d...e`, dictionary entries in their stored (sorted) order.
pub open spec fn enc(v: BValue) -> Seq<u8>
    decreases v,
{
    match v {
        BValue::Int(i) => seq![105u8] + int_text(i) + seq![101u8],
        BValue::Bytes(b) => enc_bytes(b),
        BValue::List(l) => seq![108u8] + enc_list(l) + seq![101u8],
        BValue::Dict(d) => seq![100u8] + enc_dict(d) + seq![101u8],
    }
}

/// The encodings of the items, one after another.
pub open spec fn enc_list(l: Seq<BValue>) -> Seq<u8>
    decreases l,
{
    if l.len() == 0 {
        Seq::empty()
    } else {
        enc_list(l.drop_last()) + enc(l.last())
    }
}

/// Each key's encoding followed by its value's, entry after entry.
pub open spec fn enc_dict(d: Seq<(Seq<u8>, BValue)>) -> Seq<u8>
    decreases d,
{
    if d.len() == 0 {
        Seq::empty()
    } else {
        enc_dict(d.drop_last()) + enc_bytes(d.last().0) + enc(d.last().1)
    }
}

/// (Bencode) Encoder.
pub struct Encoder<'a> {
    value: &'a Value,
}

impl<'a> Encoder<'a> {
    /// Create a new `Encoder`.
    pub fn with(value: &'a Value) -> (r: Self)
        ensures
            r.source() == value@,
    {
        Self { value }
    }

    /// The value this encoder writes.
    pub closed spec fn source(&self) -> BValue {
        self.value@
    }

    /// Encode the value.
    pub fn parse(&self) -> (r: Vec<u8>)
        ensures
            r@ == enc(self.source()),
            self.source().wf(),
    {
        let mut out: Vec<u8> = Vec::new();
        Self::parse_any(self.value, &mut out);
        assert(out@ =~= enc(self.value@));
        out
    }

    fn parse_any(value: &Value, out: &mut Vec<u8>)
        ensures
            final(out)@ == old(out)@ + enc(value@),
            value@.wf(),
        decreases value,
    {
        match value {
            Value::Integer(inner) => Self::parse_integer(inner.0, out),
            Value::ByteString(inner) => Self::parse_byte_string(&inner.0, out),
            Value::List(inner) => {
                proof {
                    let s = *value;
                    assert(decreases_to!(s => s->List_0));
                    assert(decreases_to!(s->List_0 => s->List_0.0));
                }
                Self::parse_list(&inner.0, out);
            },
            Value::Dictionary(inner) => {
                proof {
                    let s = *value;
                    assert(decreases_to!(s => s->Dictionary_0));
                }
                Self::parse_dictionary(inner, out);
            },
        }
    }

    fn parse_integer(data: isize, out: &mut Vec<u8>)
        ensures
            final(out)@ == old(out)@ + enc(BValue::Int(data as int)),
    {
        out.push(105u8);
        push_signed_decimal(data, out);
        out.push(101u8);
        assert(final(out)@ =~= old(out)@ + enc(BValue::Int(data as int)));
    }

    fn parse_byte_string(data: &Vec<u8>, out: &mut Vec<u8>)
        ensures
            final(out)@ == old(out)@ + enc_bytes(data@),
    {
        push_decimal(data.len() as u64, out);
        out.push(58u8);
        let mut i: usize = 0;
        let ghost start = out@;
        while i < data.len()
            invariant
                i <= data@.len(),
                out@ == start + data@.subrange(0, i as int),
            decreases data@.len() - i,
        {
            out.push(data[i]);
            i = i + 1;
            assert(out@ =~= start + data@.subrange(0, i as int));
        }
        assert(data@.subrange(0, i as int) =~= data@);
        assert(final(out)@ =~= old(out)@ + enc_bytes(data@));
    }

    fn parse_list(data: &Vec<Value>, out: &mut Vec<u8>)
        ensures
            final(out)@ == old(out)@ + enc(BValue::List(values_view(data@))),
            BValue::List(values_view(data@)).wf(),
        decreases data,
    {
        out.push(108u8);
        let ghost start = out@;
        let mut i: usize = 0;
        assert(data@.subrange(0, 0) =~= Seq::<Value>::empty());
        while i < data.len()
            invariant
                i <= data@.len(),
                out@ == start + enc_list(values_view(data@.subrange(0, i as int))),
                forall|j: int| 0 <= j < i ==> (#[trigger] data@[j])@.wf(),
            decreases data@.len() - i,
        {
            proof {
                assert(decreases_to!(*data => data@));
                assert(decreases_to!(data@ => data@[i as int]));
            }
            Self::parse_any(&data[i], out);
            proof {
                let p = data@.subrange(0, i as int);
                assert(data@.subrange(0, i + 1) =~= p.push(data@[i as int]));
                lemma_values_view_push(p, data@[i as int]);
                let vp = values_view(p).push(data@[i as int]@);
                assert(vp.drop_last() =~= values_view(p));
            }
            i = i + 1;
            assert(out@ =~= start + enc_list(values_view(data@.subrange(0, i as int))));
        }
        assert(data@.subrange(0, i as int) =~= data@);
        out.push(101u8);
        assert(final(out)@ =~= old(out)@ + enc(BValue::List(values_view(data@))));
        proof {
            lemma_values_view(data@);
        }
    }

    fn parse_dictionary(data: &Dictionary, out: &mut Vec<u8>)
        ensures
            final(out)@ == old(out)@ + enc(BValue::Dict(data@)),
            BValue::Dict(data@).wf(),
        decreases data,
    {
        proof {
            use_type_invariant(data);
            lemma_entries_view(data.entries());
        }
        out.push(100u8);
        let ghost start = out@;
        let ghost es = data.entries();
        let mut i: usize = 0;
        assert(es.subrange(0, 0) =~= Seq::<(crate::value::ByteString, Value)>::empty());
        while i < data.len()
            invariant
                i <= es.len(),
                es == data.entries(),
                data@ == entries_view(es),
                data@.len() == es.len(),
                out@ == start + enc_dict(entries_view(es.subrange(0, i as int))),
                forall|j: int| 0 <= j < i ==> (#[trigger] es[j]).1@.wf(),
            decreases es.len() - i,
        {
            let e = data.entry(i);
            Self::parse_byte_string(&e.0.0, out);
            proof {
                lemma_entry_decreases(*data, i as int);
            }
            Self::parse_any(&e.1, out);
            proof {
                let p = es.subrange(0, i as int);
                assert(es.subrange(0, i + 1) =~= p.push(es[i as int]));
                crate::value::lemma_entries_view_push(p, es[i as int]);
                let ev = (es[i as int].0.0@, es[i as int].1@);
                let vp = entries_view(p).push(ev);
                assert(vp.drop_last() =~= entries_view(p));
                assert(out@ =~= start + enc_dict(vp));
            }
            i = i + 1;
        }
        assert(es.subrange(0, i as int) =~= es);
        out.push(101u8);
        assert(final(out)@ =~= old(out)@ + enc(BValue::Dict(data@)));
        proof {
            assert forall|j: int| 0 <= j < data@.len() implies (#[trigger] data@[j]).1.wf() by {
                assert(data@[j] == (es[j].0.0@, es[j].1@));
            }
        }
    }
}

/// Encode a value to canonical bencode.
///
/// Every value is well-formed (dictionary keys ascending, integers in range),
/// so decoding the result gives the value back.
pub fn encode(value: &Value) -> (r: Vec<u8>)
    ensures
        r@ == enc(value@),
        value@.wf(),
        spec_decode(r@) == Some(value@),
{
    let r = Encoder::with(value).parse();
    proof {
        lemma_decode_encode(value@);
    }
    r
}

} // verus!
