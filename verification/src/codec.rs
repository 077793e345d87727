//! Length-prefixed little-endian binary codec for the tree.
//!
//! A node is one discriminant byte (0 task, 1 group) followed by, for
//! a task, a one-byte flag and the label, and for a group, the label
//! and a one-byte child count followed by the children in order. A
//! label is a two-byte little-endian byte count followed by that many
//! UTF-8 bytes. Counts above 255 and labels above 65535 bytes cannot
//! be represented.

use vstd::prelude::*;
use vstd::utf8::{decode_utf8, encode_utf8, valid_utf8};

use crate::tree::{NodeView, TodoItem};

verus! {

broadcast use vstd::std_specs::vec::group_vec_axioms, vstd::seq::group_seq_axioms;

/// Why a tree could not be encoded: a group with more than 255
/// children, or a label longer than 65535 UTF-8 bytes.
#[derive(Debug, PartialEq, Eq, Structural, Clone, Copy)]
pub enum EncodeError {
    CapExceeded,
}

/// Why bytes could not be decoded.
#[derive(Debug, PartialEq, Eq, Structural, Clone, Copy)]
pub enum DecodeError {
    /// The bytes end before the structure is complete.
    Truncated,
    /// A label's bytes are not valid UTF-8.
    BadUtf8,
    /// An unrecognized discriminant byte: input the codec cannot
    /// safely interpret.
    BadTag,
}

/// The two little-endian bytes of a length field.
pub open spec fn u16_le_spec(x: u16) -> Seq<u8> {
    seq![(x & 0xff) as u8, ((x >> 8) & 0xff) as u8]
}

/// The length field read back from its two little-endian bytes.
pub open spec fn u16_of_le(b0: u8, b1: u8) -> u16 {
    (b0 as u16) | ((b1 as u16) << 8)
}

/// A length field survives its byte round trip.
pub proof fn lemma_u16_le_round(x: u16)
    by (bit_vector)
    ensures
        u16_of_le((x & 0xff) as u8, ((x >> 8) & 0xff) as u8) == x,
{
}

/// Whether a subtree respects the format's caps: every label at most
/// 65535 UTF-8 bytes, every group at most 255 children.
pub open spec fn encodable(v: NodeView) -> bool
    decreases v,
{
    match v {
        NodeView::Task { label, .. } => encode_utf8(label).len() <= 65535,
        NodeView::Group { label, children } => {
            &&& encode_utf8(label).len() <= 65535
            &&& children.len() <= 255
            &&& encodable_seq(children)
        },
    }
}

/// `encodable` over each member of a sequence of nodes.
pub open spec fn encodable_seq(cs: Seq<NodeView>) -> bool
    decreases cs,
{
    if cs.len() == 0 {
        true
    } else {
        encodable(cs[0]) && encodable_seq(cs.subrange(1, cs.len() as int))
    }
}

/// `encodable_seq` holds exactly when each member is encodable.
pub proof fn encodable_seq_char(cs: Seq<NodeView>)
    ensures
        encodable_seq(cs) <==> (forall|k: int| 0 <= k < cs.len() ==> #[trigger] encodable(cs[k])),
    decreases cs.len(),
{
    if cs.len() != 0 {
        let tail = cs.subrange(1, cs.len() as int);
        encodable_seq_char(tail);
        if encodable_seq(cs) {
            assert forall|k: int| 0 <= k < cs.len() implies #[trigger] encodable(cs[k]) by {
                if k >= 1 {
                    assert(cs[k] == tail[k - 1]);
                    assert(encodable(tail[k - 1]));
                }
            }
        }
        if forall|k: int| 0 <= k < cs.len() ==> #[trigger] encodable(cs[k]) {
            assert forall|k: int| 0 <= k < tail.len() implies #[trigger] encodable(tail[k]) by {
                assert(tail[k] == cs[k + 1]);
            }
            assert(encodable_seq(tail));
            assert(encodable(cs[0]));
        }
    }
}

/// The bytes of an encoded label: a two-byte little-endian byte count
/// and the UTF-8 bytes themselves.
pub open spec fn encode_str_spec(label: Seq<char>) -> Seq<u8>
    recommends
        encode_utf8(label).len() <= 65535,
{
    u16_le_spec(encode_utf8(label).len() as u16) + encode_utf8(label)
}

/// The bytes of one encoded node.
pub open spec fn encode_item(v: NodeView) -> Seq<u8>
    decreases v,
{
    match v {
        NodeView::Task { done, label } => seq![0u8] + seq![
            if done {
                1u8
            } else {
                0u8
            },
        ] + encode_str_spec(label),
        NodeView::Group { label, children } => seq![1u8] + encode_str_spec(label) + seq![
            children.len() as u8,
        ] + encode_items(children),
    }
}

/// The bytes of a run of encoded nodes, in order.
pub open spec fn encode_items(cs: Seq<NodeView>) -> Seq<u8>
    decreases cs,
{
    if cs.len() == 0 {
        Seq::empty()
    } else {
        encode_item(cs[0]) + encode_items(cs.subrange(1, cs.len() as int))
    }
}

/// Encoding one more node appends its bytes.
pub proof fn encode_items_snoc(cs: Seq<NodeView>, x: NodeView)
    ensures
        encode_items(cs.push(x)) =~= encode_items(cs) + encode_item(x),
    decreases cs.len(),
{
    if cs.len() == 0 {
        reveal_with_fuel(encode_items, 2);
        assert(cs.push(x)[0] == x);
        assert(cs.push(x).subrange(1, 1) =~= Seq::<NodeView>::empty());
    } else {
        let tail = cs.subrange(1, cs.len() as int);
        encode_items_snoc(tail, x);
        assert(cs.push(x).subrange(1, cs.len() as int + 1) =~= tail.push(x));
        assert(cs.push(x)[0] == cs[0]);
    }
}

/// The label and consumed byte count read back from the head of
/// `bytes`, or the reason they cannot be.
pub open spec fn decode_str_spec(bytes: Seq<u8>) -> Result<(Seq<char>, int), DecodeError> {
    if bytes.len() < 2 {
        Err(DecodeError::Truncated)
    } else {
        let n = u16_of_le(bytes[0], bytes[1]) as int;
        if bytes.len() < 2 + n {
            Err(DecodeError::Truncated)
        } else if !valid_utf8(bytes.subrange(2, 2 + n)) {
            Err(DecodeError::BadUtf8)
        } else {
            Ok((decode_utf8(bytes.subrange(2, 2 + n)), 2 + n))
        }
    }
}

/// The node and consumed byte count read back from the head of
/// `bytes`, or the first reason the bytes cannot be a node.
pub open spec fn decode_item(bytes: Seq<u8>) -> Result<(NodeView, int), DecodeError>
    decreases bytes.len(), 0int,
{
    if bytes.len() < 1 {
        Err(DecodeError::Truncated)
    } else if bytes[0] == 0 {
        if bytes.len() < 2 {
            Err(DecodeError::Truncated)
        } else {
            let done = bytes[1] != 0;
            match decode_str_spec(bytes.subrange(2, bytes.len() as int)) {
                Ok((label, used)) => Ok((NodeView::Task { done, label }, 2 + used)),
                Err(e) => Err(e),
            }
        }
    } else if bytes[0] == 1 {
        match decode_str_spec(bytes.subrange(1, bytes.len() as int)) {
            Ok((label, used)) => {
                if bytes.len() < 1 + used + 1 {
                    Err(DecodeError::Truncated)
                } else {
                    let count = bytes[1 + used];
                    match decode_items(bytes.subrange(2 + used, bytes.len() as int), count) {
                        Ok((children, used2)) => Ok(
                            (NodeView::Group { label, children }, 2 + used + used2),
                        ),
                        Err(e) => Err(e),
                    }
                }
            },
            Err(e) => Err(e),
        }
    } else {
        Err(DecodeError::BadTag)
    }
}

/// `count` nodes and their total byte count read back from the head
/// of `bytes`. The guard on the consumed count keeps the recursion
/// well-founded; it can never fail, as `decode_item_consumes` shows.
pub open spec fn decode_items(bytes: Seq<u8>, count: u8) -> Result<(Seq<NodeView>, int), DecodeError>
    decreases bytes.len(), 1int + count,
{
    if count == 0 {
        Ok((Seq::empty(), 0))
    } else {
        match decode_item(bytes) {
            Ok((v, used)) => {
                if 1 <= used <= bytes.len() {
                    match decode_items(
                        bytes.subrange(used, bytes.len() as int),
                        (count - 1) as u8,
                    ) {
                        Ok((vs, used2)) => Ok((seq![v] + vs, used + used2)),
                        Err(e) => Err(e),
                    }
                } else {
                    Err(DecodeError::Truncated)
                }
            },
            Err(e) => Err(e),
        }
    }
}

/// A decoded node consumes at least one byte and no more than there
/// are.
pub proof fn decode_item_consumes(bytes: Seq<u8>)
    ensures
        decode_item(bytes) matches Ok(p) ==> 1 <= p.1 <= bytes.len(),
    decreases bytes.len(), 0int,
{
    if bytes.len() >= 1 && bytes[0] == 1 {
        match decode_str_spec(bytes.subrange(1, bytes.len() as int)) {
            Ok((label, used)) => {
                if bytes.len() >= 2 + used {
                    decode_items_consume(bytes.subrange(2 + used, bytes.len() as int), bytes[1 + used]);
                }
            },
            Err(_) => {},
        }
    }
}

/// Decoded nodes consume no more bytes than there are.
pub proof fn decode_items_consume(bytes: Seq<u8>, count: u8)
    ensures
        decode_items(bytes, count) matches Ok(p) ==> 0 <= p.1 <= bytes.len(),
    decreases bytes.len(), 1int + count,
{
    if count != 0 {
        decode_item_consumes(bytes);
        match decode_item(bytes) {
            Ok((v, used)) => {
                if 1 <= used <= bytes.len() {
                    decode_items_consume(bytes.subrange(used, bytes.len() as int), (count - 1) as u8);
                }
            },
            Err(_) => {},
        }
    }
}

/// Relies on `String::from_utf8`: it succeeds exactly on valid UTF-8
/// input and returns the string those bytes encode.
#[verifier::external_body]
pub(crate) fn bytes_to_string(bytes: Vec<u8>) -> (r: Option<String>)
    ensures
        r is Some <==> valid_utf8(bytes@),
        r matches Some(s) ==> s@ == decode_utf8(bytes@),
{
    match String::from_utf8(bytes) {
        Ok(s) => Some(s),
        Err(_) => None,
    }
}

/// A label survives its byte round trip, whatever follows it.
pub proof fn lemma_decode_str_round(label: Seq<char>, rest: Seq<u8>)
    requires
        encode_utf8(label).len() <= 65535,
    ensures
        decode_str_spec(encode_str_spec(label) + rest) == Ok::<(Seq<char>, int), DecodeError>(
            (label, 2 + encode_utf8(label).len() as int),
        ),
{
    let n = encode_utf8(label).len() as int;
    let n16 = encode_utf8(label).len() as u16;
    lemma_u16_le_round(n16);
    let all = encode_str_spec(label) + rest;
    assert(all[0] == (n16 & 0xff) as u8);
    assert(all[1] == ((n16 >> 8) & 0xff) as u8);
    assert(u16_of_le(all[0], all[1]) == n16);
    assert(all.subrange(2, 2 + n) =~= encode_utf8(label));
    vstd::utf8::encode_utf8_valid_utf8(label);
    vstd::utf8::encode_utf8_decode_utf8(label);
}

/// A node survives its byte round trip, whatever follows it: decoding
/// the encoding consumes exactly the encoding and rebuilds the node.
pub proof fn lemma_decode_item_round(v: NodeView, rest: Seq<u8>)
    requires
        encodable(v),
    ensures
        decode_item(encode_item(v) + rest) == Ok::<(NodeView, int), DecodeError>(
            (v, encode_item(v).len() as int),
        ),
    decreases v,
{
    let enc = encode_item(v);
    let all = enc + rest;
    match v {
        NodeView::Task { done, label } => {
            let n = encode_utf8(label).len() as int;
            assert(all[0] == 0);
            assert(all[1] == if done {
                1u8
            } else {
                0u8
            });
            lemma_decode_str_round(label, rest);
            assert(all.subrange(2, all.len() as int) =~= encode_str_spec(label) + rest);
            assert(enc.len() == 4 + n);
        },
        NodeView::Group { label, children } => {
            let n = encode_utf8(label).len() as int;
            let items = encode_items(children);
            assert(all[0] == 1);
            lemma_decode_str_round(label, seq![children.len() as u8] + items + rest);
            assert(all.subrange(1, all.len() as int) =~= encode_str_spec(label) + (seq![
                children.len() as u8,
            ] + items + rest));
            let used = 2 + n;
            assert(all.len() >= 2 + used);
            assert(all[1 + used] == children.len() as u8);
            lemma_decode_items_round(children, rest);
            assert(all.subrange(2 + used, all.len() as int) =~= items + rest);
            assert((children.len() as u8) as int == children.len());
            assert(enc.len() == 4 + n + items.len());
        },
    }
}

/// A run of nodes survives its byte round trip, whatever follows it.
pub proof fn lemma_decode_items_round(cs: Seq<NodeView>, rest: Seq<u8>)
    requires
        encodable_seq(cs),
        cs.len() <= 255,
    ensures
        decode_items(encode_items(cs) + rest, cs.len() as u8) == Ok::<
            (Seq<NodeView>, int),
            DecodeError,
        >((cs, encode_items(cs).len() as int)),
    decreases cs,
{
    let enc = encode_items(cs);
    let all = enc + rest;
    if cs.len() == 0 {
        assert(all =~= rest);
        assert(cs =~= Seq::<NodeView>::empty());
    } else {
        let head = cs[0];
        let tail = cs.subrange(1, cs.len() as int);
        let head_enc = encode_item(head);
        lemma_decode_item_round(head, encode_items(tail) + rest);
        assert(all =~= head_enc + (encode_items(tail) + rest));
        assert(head_enc.len() >= 1) by {
            match head {
                NodeView::Task { .. } => {},
                NodeView::Group { .. } => {},
            }
        }
        lemma_decode_items_round(tail, rest);
        assert(all.subrange(head_enc.len() as int, all.len() as int) =~= encode_items(tail)
            + rest);
        assert(seq![head] + tail =~= cs);
    }
}

/// Decoding the encoding of a tree that respects the format's caps
/// rebuilds the tree exactly, consuming every encoded byte.
pub proof fn lemma_codec_round_trip(v: NodeView)
    requires
        encodable(v),
    ensures
        decode_item(encode_item(v)) == Ok::<(NodeView, int), DecodeError>(
            (v, encode_item(v).len() as int),
        ),
{
    lemma_decode_item_round(v, Seq::empty());
    assert(encode_item(v) + Seq::<u8>::empty() =~= encode_item(v));
}

/// Appends a label's two-byte length field and its UTF-8 bytes.
#[verifier::loop_isolation(false)]
fn push_label(label: &String, out: &mut Vec<u8>)
    requires
        encode_utf8(label@).len() <= 65535,
    ensures
        final(out)@ == old(out)@ + encode_str_spec(label@),
{
    let bytes = label.as_str().as_bytes();
    let len16 = bytes.len() as u16;
    out.push((len16 & 0xff) as u8);
    out.push(((len16 >> 8) & 0xff) as u8);
    let ghost after_len = out@;
    proof {
        assert(after_len =~= old(out)@ + u16_le_spec(len16));
    }
    let mut k: usize = 0;
    while k < bytes.len()
        invariant
            k <= bytes@.len(),
            out@ =~= after_len + bytes@.subrange(0, k as int),
        decreases bytes@.len() - k,
    {
        out.push(bytes[k]);
        proof {
            assert(out@ =~= after_len + bytes@.subrange(0, k + 1));
        }
        k += 1;
    }
    proof {
        assert(bytes@.subrange(0, bytes@.len() as int) =~= bytes@);
        assert(final(out)@ =~= old(out)@ + encode_str_spec(label@));
    }
}

impl TodoItem {
    /// Whether the tree respects the format's caps, so that `encode`
    /// will accept it.
    #[verifier::loop_isolation(false)]
    pub fn fits_format(&self) -> (r: bool)
        ensures
            r == encodable(self@),
        decreases *self,
    {
        match self {
            TodoItem::Task(_, label) => label.as_str().as_bytes().len() <= 65535,
            TodoItem::Group(label, children) => {
                if label.as_str().as_bytes().len() > 65535 {
                    return false;
                }
                proof {
                    crate::tree::views_of_len(children@);
                }
                if children.len() > 255 {
                    return false;
                }
                let ghost cs = crate::tree::views_of(children@);
                let mut ok = true;
                let mut i: usize = 0;
                while i < children.len()
                    invariant
                        i <= children.len(),
                        ok == forall|k: int| 0 <= k < i ==> #[trigger] encodable(cs[k]),
                    decreases children.len() - i,
                {
                    proof {
                        crate::tree::views_of_index(children@, i as int);
                        assert(decreases_to!(*self => self->Group_1));
                        assert(decreases_to!(self->Group_1 => self->Group_1@));
                        assert(decreases_to!(self->Group_1@ => self->Group_1@[i as int]));
                    }
                    let child_ok = children[i].fits_format();
                    ok = ok && child_ok;
                    i += 1;
                }
                proof {
                    encodable_seq_char(cs);
                }
                ok
            },
        }
    }

    /// Appends the encoding of the tree; `requires` what `fits_format`
    /// checks.
    #[verifier::loop_isolation(false)]
    fn encode_rec(&self, out: &mut Vec<u8>)
        requires
            encodable(self@),
        ensures
            final(out)@ == old(out)@ + encode_item(self@),
        decreases *self,
    {
        match self {
            TodoItem::Task(done, label) => {
                out.push(0);
                out.push(
                    if *done {
                        1
                    } else {
                        0
                    },
                );
                push_label(label, out);
                proof {
                    assert(final(out)@ =~= old(out)@ + encode_item(self@));
                }
            },
            TodoItem::Group(label, children) => {
                out.push(1);
                push_label(label, out);
                proof {
                    crate::tree::views_of_len(children@);
                }
                out.push(children.len() as u8);
                let ghost cs = crate::tree::views_of(children@);
                let ghost base = out@;
                proof {
                    encodable_seq_char(cs);
                    assert(cs.subrange(0, 0) =~= Seq::<NodeView>::empty());
                }
                let mut i: usize = 0;
                while i < children.len()
                    invariant
                        i <= children.len(),
                        out@ =~= base + encode_items(cs.subrange(0, i as int)),
                    decreases children.len() - i,
                {
                    proof {
                        crate::tree::views_of_index(children@, i as int);
                        assert(decreases_to!(*self => self->Group_1));
                        assert(decreases_to!(self->Group_1 => self->Group_1@));
                        assert(decreases_to!(self->Group_1@ => self->Group_1@[i as int]));
                    }
                    children[i].encode_rec(out);
                    proof {
                        encode_items_snoc(cs.subrange(0, i as int), cs[i as int]);
                        assert(cs.subrange(0, i as int).push(cs[i as int]) =~= cs.subrange(
                            0,
                            i as int + 1,
                        ));
                    }
                    i += 1;
                }
                proof {
                    assert(cs.subrange(0, children@.len() as int) =~= cs);
                    assert(final(out)@ =~= old(out)@ + encode_item(self@));
                }
            },
        }
    }

    /// Appends the encoding of the tree to `out`, or reports that a
    /// format cap is passed, leaving `out` as it was: success exactly
    /// on trees within the caps.
    pub fn encode(&self, out: &mut Vec<u8>) -> (r: Result<(), EncodeError>)
        ensures
            r is Ok <==> encodable(self@),
            r is Ok ==> final(out)@ == old(out)@ + encode_item(self@),
            r is Err ==> final(out)@ == old(out)@,
    {
        if self.fits_format() {
            self.encode_rec(out);
            Ok(())
        } else {
            Err(EncodeError::CapExceeded)
        }
    }
}

/// Reads a label starting at `pos`: its two-byte length field and
/// that many UTF-8 bytes, decoded to a string.
#[verifier::loop_isolation(false)]
fn read_label(buf: &[u8], pos: usize) -> (r: Result<(String, usize), DecodeError>)
    requires
        pos <= buf@.len(),
    ensures
        ({
            let tail = buf@.subrange(pos as int, buf@.len() as int);
            &&& (decode_str_spec(tail) matches Ok(p) ==> r is Ok && r.unwrap().0@ == p.0
                && r.unwrap().1 == pos + p.1 && pos < r.unwrap().1 <= buf@.len())
            &&& (decode_str_spec(tail) matches Err(e) ==> r == Err::<(String, usize), DecodeError>(
                e,
            ))
        }),
{
    let ghost tail = buf@.subrange(pos as int, buf@.len() as int);
    let n = buf.len();
    if n - pos < 2 {
        return Err(DecodeError::Truncated);
    }
    let b0 = buf[pos];
    let b1 = buf[pos + 1];
    let slen = ((b0 as u16) | ((b1 as u16) << 8)) as usize;
    proof {
        assert(tail[0] == b0 && tail[1] == b1);
        assert(slen == u16_of_le(b0, b1) as int);
    }
    if n - pos - 2 < slen {
        return Err(DecodeError::Truncated);
    }
    let mut label_bytes: Vec<u8> = Vec::new();
    let mut k: usize = 0;
    while k < slen
        invariant
            k <= slen,
            pos + 2 + slen <= buf@.len(),
            label_bytes@ =~= buf@.subrange(pos + 2, pos + 2 + k),
        decreases slen - k,
    {
        label_bytes.push(buf[pos + 2 + k]);
        proof {
            assert(label_bytes@ =~= buf@.subrange(pos + 2, pos + 2 + (k + 1)));
        }
        k += 1;
    }
    proof {
        assert(label_bytes@ =~= tail.subrange(2, 2 + slen as int));
    }
    match bytes_to_string(label_bytes) {
        Some(s) => Ok((s, pos + 2 + slen)),
        None => Err(DecodeError::BadUtf8),
    }
}

impl TodoItem {
    /// Reads one encoded node starting at `pos`, returning the node
    /// and the position just past its bytes.
    #[verifier::loop_isolation(false)]
    fn decode_at(buf: &[u8], pos: usize) -> (r: Result<(TodoItem, usize), DecodeError>)
        requires
            pos <= buf@.len(),
        ensures
            ({
                let tail = buf@.subrange(pos as int, buf@.len() as int);
                &&& (decode_item(tail) matches Ok(p) ==> r is Ok && r.unwrap().0@ == p.0
                    && r.unwrap().1 == pos + p.1 && pos < r.unwrap().1 <= buf@.len())
                &&& (decode_item(tail) matches Err(e) ==> r == Err::<
                    (TodoItem, usize),
                    DecodeError,
                >(e))
            }),
        decreases buf@.len() - pos,
    {
        let ghost n_int = buf@.len() as int;
        let ghost tail = buf@.subrange(pos as int, n_int);
        let n = buf.len();
        if pos >= n {
            return Err(DecodeError::Truncated);
        }
        let tag = buf[pos];
        proof {
            assert(tail[0] == tag);
        }
        if tag == 0 {
            if n - pos < 2 {
                return Err(DecodeError::Truncated);
            }
            let flag = buf[pos + 1];
            proof {
                assert(tail[1] == flag);
                assert(tail.subrange(2, tail.len() as int) =~= buf@.subrange(pos + 2, n_int));
            }
            match read_label(buf, pos + 2) {
                Ok((label, p2)) => Ok((TodoItem::Task(flag != 0, label), p2)),
                Err(e) => Err(e),
            }
        } else if tag == 1 {
            proof {
                assert(tail.subrange(1, tail.len() as int) =~= buf@.subrange(pos + 1, n_int));
            }
            match read_label(buf, pos + 1) {
                Ok((label, p2)) => {
                    let ghost used = p2 - pos - 1;
                    if p2 >= n {
                        return Err(DecodeError::Truncated);
                    }
                    let count = buf[p2];
                    proof {
                        assert(tail[1 + used] == count);
                        assert(tail.subrange(2 + used, tail.len() as int) =~= buf@.subrange(
                            p2 + 1,
                            n_int,
                        ));
                    }
                    let ghost base = p2 + 1;
                    let mut children: Vec<TodoItem> = Vec::new();
                    let mut p: usize = p2 + 1;
                    let mut k: u8 = 0;
                    proof {
                        crate::tree::views_of_len(children@);
                    }
                    while k < count
                        invariant
                            k <= count,
                            base <= p <= buf@.len(),
                            pos < base,
                            crate::tree::views_of(children@).len() == k as int,
                            ({
                                let total = decode_items(
                                    buf@.subrange(base as int, n_int),
                                    count,
                                );
                                match decode_items(
                                    buf@.subrange(p as int, n_int),
                                    (count - k) as u8,
                                ) {
                                    Ok(q) => total == Ok::<(Seq<NodeView>, int), DecodeError>(
                                        (
                                            crate::tree::views_of(children@) + q.0,
                                            (p - base) + q.1,
                                        ),
                                    ),
                                    Err(e) => total == Err::<(Seq<NodeView>, int), DecodeError>(
                                        e,
                                    ),
                                }
                            }),
                        decreases count - k,
                    {
                        let ghost cs_pre = crate::tree::views_of(children@);
                        match Self::decode_at(buf, p) {
                            Ok((child, p_next)) => {
                                proof {
                                    let sub = buf@.subrange(p as int, n_int);
                                    assert(sub.subrange(
                                        p_next - p,
                                        sub.len() as int,
                                    ) =~= buf@.subrange(p_next as int, n_int));
                                    crate::tree::views_of_push(children@, child);
                                }
                                children.push(child);
                                proof {
                                    assert(crate::tree::views_of(children@) =~= cs_pre.push(
                                        child@,
                                    ));
                                }
                                p = p_next;
                                k += 1;
                                proof {
                                    let total = decode_items(
                                        buf@.subrange(base as int, n_int),
                                        count,
                                    );
                                    match decode_items(
                                        buf@.subrange(p as int, n_int),
                                        (count - k) as u8,
                                    ) {
                                        Ok(q) => {
                                            assert(cs_pre.push(child@) + q.0 =~= cs_pre + (seq![
                                                child@,
                                            ] + q.0));
                                        },
                                        Err(_) => {},
                                    }
                                }
                            },
                            Err(e) => {
                                return Err(e);
                            },
                        }
                    }
                    proof {
                        assert(crate::tree::views_of(children@) + Seq::<NodeView>::empty()
                            =~= crate::tree::views_of(children@));
                    }
                    Ok((TodoItem::Group(label, children), p))
                },
                Err(e) => Err(e),
            }
        } else {
            Err(DecodeError::BadTag)
        }
    }

    /// Reads one encoded node from the head of `buf`: the decoded tree
    /// and how many bytes it occupied, trailing bytes left alone;
    /// or the first fault in the bytes.
    pub fn decode(buf: &[u8]) -> (r: Result<(TodoItem, usize), DecodeError>)
        ensures
            decode_item(buf@) matches Ok(p) ==> r is Ok && r.unwrap().0@ == p.0 && r.unwrap().1
                == p.1,
            decode_item(buf@) matches Err(e) ==> r == Err::<(TodoItem, usize), DecodeError>(e),
    {
        proof {
            assert(buf@.subrange(0, buf@.len() as int) =~= buf@);
        }
        Self::decode_at(buf, 0)
    }
}

} // verus!
