//! Runs of cipher-decoded fields read by a fixed layout.
use vstd::prelude::*;

use crate::decrypt::{byte_at, int_at, peek_at, text_at, wide_at, Block, CipherPos, Decrypt};
use crate::error::DecodeError;

verus! {

/// The kind of one field: a word, a word read without touching the key, a
/// byte, a text, or a wide text.
#[derive(Clone, Copy, Debug, PartialEq, Eq, Structural)]
pub enum FieldKind {
    Int,
    Peek,
    Byte,
    Text,
    Wide,
}

/// What a field decodes to.
pub enum FieldValue {
    Int(u32),
    Byte(u8),
    Text(Seq<char>),
}

/// A decoded field.
pub enum Field {
    Int(u32),
    Byte(u8),
    Text(String),
}

impl View for Field {
    type V = FieldValue;

    open spec fn view(&self) -> FieldValue {
        match self {
            Field::Int(v) => FieldValue::Int(*v),
            Field::Byte(v) => FieldValue::Byte(*v),
            Field::Text(s) => FieldValue::Text(s@),
        }
    }
}

/// The kind a value has.
pub open spec fn kind_of(v: FieldValue, k: FieldKind) -> bool {
    match k {
        FieldKind::Int => v is Int,
        FieldKind::Peek => v is Int,
        FieldKind::Byte => v is Byte,
        FieldKind::Text => v is Text,
        FieldKind::Wide => v is Text,
    }
}

/// One field of kind `k` read from `c`.
pub open spec fn field_at(d: Seq<u8>, t: Seq<u32>, c: CipherPos, k: FieldKind) -> Option<(FieldValue, CipherPos)> {
    match k {
        FieldKind::Int => match int_at(d, t, c) {
            Some((v, c1)) => Some((FieldValue::Int(v), c1)),
            None => None,
        },
        FieldKind::Peek => match peek_at(d, t, c) {
            Some((v, c1)) => Some((FieldValue::Int(v), c1)),
            None => None,
        },
        FieldKind::Byte => match byte_at(d, t, c) {
            Some((v, c1)) => Some((FieldValue::Byte(v), c1)),
            None => None,
        },
        FieldKind::Text => match text_at(d, t, c) {
            Some((v, c1)) => Some((FieldValue::Text(v), c1)),
            None => None,
        },
        FieldKind::Wide => match wide_at(d, t, c) {
            Some((v, c1)) => Some((FieldValue::Text(v), c1)),
            None => None,
        },
    }
}

/// The fields of layout `ks` read in order from `c`, and where reading them ends.
pub open spec fn fields_at(d: Seq<u8>, t: Seq<u32>, c: CipherPos, ks: Seq<FieldKind>) -> Option<
    (Seq<FieldValue>, CipherPos),
>
    decreases ks.len(),
{
    if ks.len() == 0 {
        Some((Seq::empty(), c))
    } else {
        match fields_at(d, t, c, ks.drop_last()) {
            None => None,
            Some((vs, c1)) => match field_at(d, t, c1, ks.last()) {
                None => None,
                Some((v, c2)) => Some((vs.push(v), c2)),
            },
        }
    }
}

/// The values of a layout read from `c`; empty when it cannot be read.
pub open spec fn values_at(d: Seq<u8>, t: Seq<u32>, c: CipherPos, ks: Seq<FieldKind>) -> Seq<FieldValue> {
    match fields_at(d, t, c, ks) {
        Some((vs, _)) => vs,
        None => Seq::empty(),
    }
}

/// The values read follow the layout, one for each field, of its kind.
pub proof fn lemma_fields_shape(d: Seq<u8>, t: Seq<u32>, c: CipherPos, ks: Seq<FieldKind>)
    requires
        fields_at(d, t, c, ks) is Some,
    ensures
        values_at(d, t, c, ks).len() == ks.len(),
        forall|i: int| 0 <= i < ks.len() ==> kind_of(#[trigger] values_at(d, t, c, ks)[i], ks[i]),
    decreases ks.len(),
{
    if ks.len() > 0 {
        lemma_fields_shape(d, t, c, ks.drop_last());
    }
}

/// The text of a text value.
pub open spec fn text_of(v: FieldValue) -> Seq<char> {
    match v {
        FieldValue::Text(s) => s,
        _ => Seq::empty(),
    }
}

/// The word of a word value.
pub open spec fn int_of(v: FieldValue) -> u32 {
    match v {
        FieldValue::Int(x) => x,
        _ => 0,
    }
}

/// The byte of a byte value.
pub open spec fn byte_of(v: FieldValue) -> u8 {
    match v {
        FieldValue::Byte(x) => x,
        _ => 0,
    }
}

impl Field {
    pub fn into_text(self) -> (r: String)
        requires
            self is Text,
        ensures
            r@ == text_of(self@),
    {
        match self {
            Field::Text(s) => s,
            _ => String::new(),
        }
    }

    pub fn word(&self) -> (r: u32)
        requires
            self is Int,
        ensures
            r == int_of(self@),
    {
        match self {
            Field::Int(v) => *v,
            _ => 0,
        }
    }

    pub fn byte(&self) -> (r: u8)
        requires
            self is Byte,
        ensures
            r == byte_of(self@),
    {
        match self {
            Field::Byte(v) => *v,
            _ => 0,
        }
    }
}

/// The views of decoded fields.
pub open spec fn field_views(v: Seq<Field>) -> Seq<FieldValue> {
    Seq::new(v.len(), |i: int| v[i]@)
}

impl Decrypt {
    /// Reads one field of kind `k`.
    pub fn read_field(&mut self, k: FieldKind) -> (r: Result<Field, DecodeError>)
        requires
            old(self).wf(),
        ensures
            old(self).same_file(final(self)),
            field_at(old(self).data(), old(self).table(), old(self).at(), k) == (if r is Ok {
                Some((r->Ok_0@, final(self).at()))
            } else {
                None::<(FieldValue, CipherPos)>
            }),
    {
        match k {
            FieldKind::Int => Ok(Field::Int(self.read_int()?)),
            FieldKind::Peek => Ok(Field::Int(self.next_int()?)),
            FieldKind::Byte => Ok(Field::Byte(self.read_byte()?)),
            FieldKind::Text => Ok(Field::Text(self.read_str()?)),
            FieldKind::Wide => Ok(Field::Text(self.read_wide_string()?)),
        }
    }

    /// Reads the fields of a layout in order; fails at the first that cannot be read.
    pub fn read_fields(&mut self, ks: &Vec<FieldKind>) -> (r: Result<Vec<Field>, DecodeError>)
        requires
            old(self).wf(),
        ensures
            old(self).same_file(final(self)),
            fields_at(old(self).data(), old(self).table(), old(self).at(), ks@) == (if r is Ok {
                Some((field_views(r->Ok_0@), final(self).at()))
            } else {
                None::<(Seq<FieldValue>, CipherPos)>
            }),
    {
        let ghost d = self.data();
        let ghost t = self.table();
        let ghost c0 = self.at();
        let mut out: Vec<Field> = Vec::new();
        let mut i: usize = 0;
        while i < ks.len()
            invariant
                old(self).same_file(self),
                d == old(self).data(),
                t == old(self).table(),
                c0 == old(self).at(),
                i <= ks@.len(),
                fields_at(d, t, c0, ks@.take(i as int)) == Some((field_views(out@), self.at())),
            decreases ks@.len() - i,
        {
            assert(ks@.take(i + 1).drop_last() =~= ks@.take(i as int));
            let ghost before = self.at();
            match self.read_field(ks[i]) {
                Ok(f) => {
                    out.push(f);
                    assert(field_views(out@) =~= field_views(out@).drop_last().push(out@.last()@));
                    assert(field_views(out@).drop_last() =~= field_views(out@.drop_last()));
                },
                Err(e) => {
                    proof {
                        lemma_fields_none_extends(d, t, c0, ks@, i as int + 1);
                    }
                    return Err(e);
                },
            }
            i = i + 1;
        }
        assert(ks@.take(ks@.len() as int) =~= ks@);
        Ok(out)
    }

    /// Opens a block and reads the fields of `ks` that start its body.
    pub fn read_block_head(&mut self, ks: &Vec<FieldKind>) -> (r: Result<(u32, Block, Vec<Field>), DecodeError>)
        requires
            old(self).wf(),
        ensures
            old(self).same_file(final(self)),
            ({
                let all = block_layout(ks@);
                let f = fields_at(old(self).data(), old(self).table(), old(self).at(), all);
                let vals = values_at(old(self).data(), old(self).table(), old(self).at(), all);
                &&& r is Ok <==> f is Some && old(self).pos() + 8 + int_of(vals[1]) <= u32::MAX
                &&& r is Ok ==> f == Some((seq![FieldValue::Int(r->Ok_0.0), FieldValue::Int(r->Ok_0.1.len)] + field_views(r->Ok_0.2@), final(self).at()))
                    && r->Ok_0.1.end == old(self).pos() + 8 + r->Ok_0.1.len
            }),
    {
        let ghost d = self.data();
        let ghost t = self.table();
        let ghost c0 = self.at();
        let ghost head = seq![FieldKind::Int, FieldKind::Peek];
        proof {
            lemma_fields_short(d, t, c0, FieldKind::Int, FieldKind::Peek);
        }
        let (tag, block) = match self.read_block_start() {
            Ok(v) => v,
            Err(e) => {
                proof {
                    if fields_at(d, t, c0, head) is None {
                        lemma_fields_none_prefix(d, t, c0, head, ks@);
                    } else {
                        lemma_fields_concat(d, t, c0, head, ks@);
                    }
                }
                return Err(e);
            },
        };
        proof {
            lemma_fields_concat(d, t, c0, head, ks@);
        }
        let vs = self.read_fields(ks)?;
        Ok((tag, block, vs))
    }
}

/// `n` things read one after another from `c` by `f`, and where reading them ends.
pub open spec fn repeat_at<A>(f: spec_fn(CipherPos) -> Option<(A, CipherPos)>, c: CipherPos, n: nat) -> Option<
    (Seq<A>, CipherPos),
>
    decreases n,
{
    if n == 0 {
        Some((Seq::empty(), c))
    } else {
        match repeat_at(f, c, (n - 1) as nat) {
            None => None,
            Some((xs, c1)) => match f(c1) {
                None => None,
                Some((x, c2)) => Some((xs.push(x), c2)),
            },
        }
    }
}

/// If the first `k` things cannot be read, neither can `n >= k`.
pub proof fn lemma_repeat_none<A>(f: spec_fn(CipherPos) -> Option<(A, CipherPos)>, c: CipherPos, k: nat, n: nat)
    requires
        k <= n,
        repeat_at(f, c, k) is None,
    ensures
        repeat_at(f, c, n) is None,
    decreases n - k,
{
    if k < n {
        lemma_repeat_none(f, c, k, (n - 1) as nat);
    }
}

/// `n` things read hold `n` values.
pub proof fn lemma_repeat_len<A>(f: spec_fn(CipherPos) -> Option<(A, CipherPos)>, c: CipherPos, n: nat)
    requires
        repeat_at(f, c, n) is Some,
    ensures
        decoded(repeat_at(f, c, n)).len() == n,
    decreases n,
{
    if n > 0 {
        lemma_repeat_len(f, c, (n - 1) as nat);
    }
}

/// A block's end check from `c`: the position must be the block's end and
/// the sentinel read there with `next_int` must be zero.
pub open spec fn close_at(d: Seq<u8>, t: Seq<u32>, c: CipherPos, end: int) -> Option<CipherPos> {
    if c.pos != end {
        None
    } else {
        match peek_at(d, t, c) {
            Some((v, c1)) => if v == 0 {
                Some(c1)
            } else {
                None
            },
            None => None,
        }
    }
}

/// What a successful read decoded.
pub open spec fn decoded<A>(o: Option<(A, CipherPos)>) -> A {
    match o {
        Some((a, _)) => a,
        None => arbitrary(),
    }
}

/// Where a successful read ended.
pub open spec fn decoded_end<A>(o: Option<(A, CipherPos)>) -> CipherPos {
    match o {
        Some((_, e)) => e,
        None => arbitrary(),
    }
}

/// `n` bytes.
pub open spec fn byte_layout(n: nat) -> Seq<FieldKind> {
    Seq::new(n, |i: int| FieldKind::Byte)
}

/// Bytes as field values.
pub open spec fn byte_values(b: Seq<u8>) -> Seq<FieldValue> {
    Seq::new(b.len(), |i: int| FieldValue::Byte(b[i]))
}

impl Decrypt {
    /// Reads `n` bytes one by one.
    pub fn read_bytes(&mut self, n: usize) -> (r: Result<Vec<u8>, DecodeError>)
        requires
            old(self).wf(),
        ensures
            old(self).same_file(final(self)),
            fields_at(old(self).data(), old(self).table(), old(self).at(), byte_layout(n as nat)) == (if r is Ok {
                Some((byte_values(r->Ok_0@), final(self).at()))
            } else {
                None::<(Seq<FieldValue>, CipherPos)>
            }),
    {
        let ghost (d, t, c0) = (self.data(), self.table(), self.at());
        let mut out: Vec<u8> = Vec::new();
        let mut i: usize = 0;
        assert(byte_layout(0) =~= Seq::<FieldKind>::empty());
        assert(byte_values(out@) =~= Seq::<FieldValue>::empty());
        while i < n
            invariant
                old(self).same_file(self),
                d == old(self).data(),
                t == old(self).table(),
                c0 == old(self).at(),
                i <= n,
                fields_at(d, t, c0, byte_layout(i as nat)) == Some((byte_values(out@), self.at())),
            decreases n - i,
        {
            assert(byte_layout((i + 1) as nat).drop_last() =~= byte_layout(i as nat));
            assert(byte_layout((i + 1) as nat).last() == FieldKind::Byte);
            match self.read_byte() {
                Ok(b) => {
                    out.push(b);
                    assert(byte_values(out@) =~= byte_values(out@.drop_last()).push(FieldValue::Byte(b)));
                },
                Err(e) => {
                    proof {
                        assert(byte_layout(n as nat).take(i + 1) =~= byte_layout((i + 1) as nat));
                        lemma_fields_none_extends(d, t, c0, byte_layout(n as nat), i + 1);
                    }
                    return Err(e);
                },
            }
            i = i + 1;
        }
        Ok(out)
    }
}

/// A layout of one field, and of two.
pub proof fn lemma_fields_short(d: Seq<u8>, t: Seq<u32>, c: CipherPos, k1: FieldKind, k2: FieldKind)
    ensures
        fields_at(d, t, c, seq![k1]) == (match field_at(d, t, c, k1) {
            Some((v1, c1)) => Some((seq![v1], c1)),
            None => None,
        }),
        fields_at(d, t, c, seq![k1, k2]) == (match field_at(d, t, c, k1) {
            Some((v1, c1)) => match field_at(d, t, c1, k2) {
                Some((v2, c2)) => Some((seq![v1, v2], c2)),
                None => None,
            },
            None => None,
        }),
{
    reveal_with_fuel(fields_at, 3);
    assert(seq![k1].drop_last() =~= Seq::<FieldKind>::empty());
    assert(seq![k1, k2].drop_last() =~= seq![k1]);
    match field_at(d, t, c, k1) {
        Some((v1, c1)) => {
            assert(Seq::<FieldValue>::empty().push(v1) =~= seq![v1]);
            match field_at(d, t, c1, k2) {
                Some((v2, c2)) => {
                    assert(seq![v1].push(v2) =~= seq![v1, v2]);
                },
                None => {},
            }
        },
        None => {},
    }
}

/// Reading two layouts one after the other is reading their concatenation.
pub proof fn lemma_fields_concat(d: Seq<u8>, t: Seq<u32>, c: CipherPos, a: Seq<FieldKind>, b: Seq<FieldKind>)
    requires
        fields_at(d, t, c, a) is Some,
    ensures
        fields_at(d, t, c, a + b) == (match fields_at(d, t, fields_end(d, t, c, a), b) {
            Some((vs, e)) => Some((values_at(d, t, c, a) + vs, e)),
            None => None,
        }),
    decreases b.len(),
{
    if b.len() == 0 {
        assert(a + b =~= a);
        assert(values_at(d, t, c, a) + Seq::<FieldValue>::empty() =~= values_at(d, t, c, a));
    } else {
        lemma_fields_concat(d, t, c, a, b.drop_last());
        assert((a + b).drop_last() =~= a + b.drop_last());
        match fields_at(d, t, fields_end(d, t, c, a), b.drop_last()) {
            Some((vs, e)) => {
                match field_at(d, t, e, b.last()) {
                    Some((v, e2)) => {
                        assert((values_at(d, t, c, a) + vs).push(v) =~= values_at(d, t, c, a) + vs.push(v));
                    },
                    None => {},
                }
            },
            None => {},
        }
    }
}

/// Where reading a layout from `c` ends; `c` itself when it cannot be read.
pub open spec fn fields_end(d: Seq<u8>, t: Seq<u32>, c: CipherPos, ks: Seq<FieldKind>) -> CipherPos {
    match fields_at(d, t, c, ks) {
        Some((_, e)) => e,
        None => c,
    }
}

/// The layout of a block's start: its tag, its length, then `ks`.
pub open spec fn block_layout(ks: Seq<FieldKind>) -> Seq<FieldKind> {
    seq![FieldKind::Int, FieldKind::Peek] + ks
}

/// What `read_block_head` returns follows its layout: one field for each
/// kind of `ks`, of that kind, and the same values the layout has.
pub proof fn lemma_head_shape(d: Seq<u8>, t: Seq<u32>, c: CipherPos, ks: Seq<FieldKind>, head: Seq<FieldValue>, vs: Seq<Field>)
    requires
        fields_at(d, t, c, block_layout(ks)) is Some,
        values_at(d, t, c, block_layout(ks)) == head + field_views(vs),
        head.len() == 2,
    ensures
        vs.len() == ks.len(),
        forall|i: int| 0 <= i < ks.len() ==> kind_of(#[trigger] vs[i]@, ks[i]),
        forall|i: int| 0 <= i < ks.len() ==> values_at(d, t, c, block_layout(ks))[i + 2] == #[trigger] vs[i]@,
{
    lemma_fields_shape(d, t, c, block_layout(ks));
    let all = values_at(d, t, c, block_layout(ks));
    assert forall|i: int| 0 <= i < ks.len() implies kind_of(#[trigger] vs[i]@, ks[i]) by {
        assert(all[i + 2] == field_views(vs)[i]);
        assert(block_layout(ks)[i + 2] == ks[i]);
    }
    assert forall|i: int| 0 <= i < ks.len() implies all[i + 2] == #[trigger] vs[i]@ by {
        assert(all[i + 2] == field_views(vs)[i]);
    }
}

/// A layout whose first part cannot be read cannot be read with more after it.
pub proof fn lemma_fields_none_prefix(d: Seq<u8>, t: Seq<u32>, c: CipherPos, a: Seq<FieldKind>, b: Seq<FieldKind>)
    requires
        fields_at(d, t, c, a) is None,
    ensures
        fields_at(d, t, c, a + b) is None,
{
    assert((a + b).take(a.len() as int) =~= a);
    lemma_fields_none_extends(d, t, c, a + b, a.len() as int);
}

/// A layout whose first `n` fields cannot be read cannot be read whole.
pub proof fn lemma_fields_none_extends(d: Seq<u8>, t: Seq<u32>, c: CipherPos, ks: Seq<FieldKind>, n: int)
    requires
        0 <= n <= ks.len(),
        fields_at(d, t, c, ks.take(n)) is None,
    ensures
        fields_at(d, t, c, ks) is None,
    decreases ks.len() - n,
{
    if n < ks.len() {
        assert(ks.take(n + 1).drop_last() =~= ks.take(n));
        lemma_fields_none_extends(d, t, c, ks, n + 1);
    } else {
        assert(ks.take(n) =~= ks);
    }
}

} // verus!
