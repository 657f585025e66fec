//! A total order on compiled templates, so that they can serve as map keys:
//! values of one variant compare by content, values of different variants by
//! a fixed rank of the variants. Floating-point numbers compare as
//! `ordered_float::OrderedFloat` does: every NaN equals every other and
//! exceeds all numbers, and the two zeros are equal.
use vstd::prelude::*;
use std::cmp::Ordering;
use crate::template::{
    Chunk, ChunkView, ValueTemplate, TemplateModel, chunk_views, lemma_template_models,
    lemma_template_pair_models, template_models, template_pair_models,
};
use crate::text::chars_of;
use crate::value::Tree;

verus! {

broadcast use vstd::std_specs::vec::axiom_vec_index_decreases;

/// The position of a variant in the order across variants.
pub open spec fn rank(t: TemplateModel) -> nat {
    match t {
        Tree::Bool(_) => 0,
        Tree::Usize(_) => 1,
        Tree::U8(_) => 2,
        Tree::U16(_) => 3,
        Tree::U32(_) => 4,
        Tree::U64(_) => 5,
        Tree::Isize(_) => 6,
        Tree::I8(_) => 7,
        Tree::I16(_) => 8,
        Tree::I32(_) => 9,
        Tree::I64(_) => 10,
        Tree::Float32Bits(_) => 11,
        Tree::Float64Bits(_) => 12,
        Tree::Char(_) => 13,
        Tree::Leaf(_) => 14,
        Tree::Unit => 15,
        Tree::UnitStruct(_) => 16,
        Tree::Optional(_) => 17,
        Tree::Newtype(_) => 18,
        Tree::Sequence(_) => 19,
        Tree::Mapping(_) => 20,
        Tree::Bytes(_) => 21,
    }
}

pub open spec fn cmp_int(a: int, b: int) -> Ordering {
    if a < b {
        Ordering::Less
    } else if a > b {
        Ordering::Greater
    } else {
        Ordering::Equal
    }
}

/// Where an `f32` with bit pattern `b` stands in the order: NaNs above all
/// numbers, and both zeros at zero.
pub open spec fn f32_key(b: u32) -> int {
    let m = b as int % 0x8000_0000;
    if m > 0x7f80_0000 {
        0x8000_0000
    } else if b as int >= 0x8000_0000 {
        -m
    } else {
        m
    }
}

/// Where an `f64` with bit pattern `b` stands in the order.
pub open spec fn f64_key(b: u64) -> int {
    let m = b as int % 0x8000_0000_0000_0000;
    if m > 0x7ff0_0000_0000_0000 {
        0x8000_0000_0000_0000
    } else if b as int >= 0x8000_0000_0000_0000 {
        -m
    } else {
        m
    }
}

/// Lexicographic order of character sequences, by code point.
pub open spec fn cmp_chars(a: Seq<char>, b: Seq<char>) -> Ordering
    decreases a.len(),
{
    if a.len() == 0 {
        if b.len() == 0 { Ordering::Equal } else { Ordering::Less }
    } else if b.len() == 0 {
        Ordering::Greater
    } else if a[0] != b[0] {
        cmp_int(a[0] as u32 as int, b[0] as u32 as int)
    } else {
        cmp_chars(a.drop_first(), b.drop_first())
    }
}

pub open spec fn cmp_bytes(a: Seq<u8>, b: Seq<u8>) -> Ordering
    decreases a.len(),
{
    if a.len() == 0 {
        if b.len() == 0 { Ordering::Equal } else { Ordering::Less }
    } else if b.len() == 0 {
        Ordering::Greater
    } else if a[0] != b[0] {
        cmp_int(a[0] as int, b[0] as int)
    } else {
        cmp_bytes(a.drop_first(), b.drop_first())
    }
}

/// Chunks order literal text before context keys, then by their strings.
pub open spec fn cmp_chunk(a: ChunkView, b: ChunkView) -> Ordering {
    match (a, b) {
        (ChunkView::Text(x), ChunkView::Text(y)) => cmp_chars(x, y),
        (ChunkView::Mdc(x), ChunkView::Mdc(y)) => cmp_chars(x, y),
        (ChunkView::Text(_), ChunkView::Mdc(_)) => Ordering::Less,
        (ChunkView::Mdc(_), ChunkView::Text(_)) => Ordering::Greater,
    }
}

pub open spec fn cmp_chunks(a: Seq<ChunkView>, b: Seq<ChunkView>) -> Ordering
    decreases a.len(),
{
    if a.len() == 0 {
        if b.len() == 0 { Ordering::Equal } else { Ordering::Less }
    } else if b.len() == 0 {
        Ordering::Greater
    } else if cmp_chunk(a[0], b[0]) != Ordering::Equal {
        cmp_chunk(a[0], b[0])
    } else {
        cmp_chunks(a.drop_first(), b.drop_first())
    }
}

/// The order of compiled templates.
pub open spec fn cmp_tree(a: TemplateModel, b: TemplateModel) -> Ordering
    decreases a,
{
    match (a, b) {
        (Tree::Bool(x), Tree::Bool(y)) => cmp_int(if x { 1 } else { 0 }, if y { 1 } else { 0 }),
        (Tree::Usize(x), Tree::Usize(y)) => cmp_int(x as int, y as int),
        (Tree::U8(x), Tree::U8(y)) => cmp_int(x as int, y as int),
        (Tree::U16(x), Tree::U16(y)) => cmp_int(x as int, y as int),
        (Tree::U32(x), Tree::U32(y)) => cmp_int(x as int, y as int),
        (Tree::U64(x), Tree::U64(y)) => cmp_int(x as int, y as int),
        (Tree::Isize(x), Tree::Isize(y)) => cmp_int(x as int, y as int),
        (Tree::I8(x), Tree::I8(y)) => cmp_int(x as int, y as int),
        (Tree::I16(x), Tree::I16(y)) => cmp_int(x as int, y as int),
        (Tree::I32(x), Tree::I32(y)) => cmp_int(x as int, y as int),
        (Tree::I64(x), Tree::I64(y)) => cmp_int(x as int, y as int),
        (Tree::Float32Bits(x), Tree::Float32Bits(y)) => cmp_int(f32_key(x), f32_key(y)),
        (Tree::Float64Bits(x), Tree::Float64Bits(y)) => cmp_int(f64_key(x), f64_key(y)),
        (Tree::Char(x), Tree::Char(y)) => cmp_int(x as u32 as int, y as u32 as int),
        (Tree::Leaf(x), Tree::Leaf(y)) => cmp_chunks(x, y),
        (Tree::Unit, Tree::Unit) => Ordering::Equal,
        (Tree::UnitStruct(x), Tree::UnitStruct(y)) => cmp_chars(x, y),
        (Tree::Optional(x), Tree::Optional(y)) => match (x, y) {
            (None, None) => Ordering::Equal,
            (None, Some(_)) => Ordering::Less,
            (Some(_), None) => Ordering::Greater,
            (Some(p), Some(q)) => cmp_tree(*p, *q),
        },
        (Tree::Newtype(x), Tree::Newtype(y)) => cmp_tree(*x, *y),
        (Tree::Sequence(x), Tree::Sequence(y)) => cmp_list(x, y),
        (Tree::Mapping(x), Tree::Mapping(y)) => cmp_pairs(x, y),
        (Tree::Bytes(x), Tree::Bytes(y)) => cmp_bytes(x, y),
        _ => cmp_int(rank(a) as int, rank(b) as int),
    }
}

pub open spec fn cmp_list(a: Seq<TemplateModel>, b: Seq<TemplateModel>) -> Ordering
    decreases a,
{
    if a.len() == 0 {
        if b.len() == 0 { Ordering::Equal } else { Ordering::Less }
    } else if b.len() == 0 {
        Ordering::Greater
    } else if cmp_tree(a[0], b[0]) != Ordering::Equal {
        cmp_tree(a[0], b[0])
    } else {
        cmp_list(a.drop_first(), b.drop_first())
    }
}

/// Map entries compare as pairs, the key first.
pub open spec fn cmp_pairs(a: Seq<(TemplateModel, TemplateModel)>, b: Seq<(TemplateModel, TemplateModel)>) -> Ordering
    decreases a,
{
    if a.len() == 0 {
        if b.len() == 0 { Ordering::Equal } else { Ordering::Less }
    } else if b.len() == 0 {
        Ordering::Greater
    } else if cmp_tree(a[0].0, b[0].0) != Ordering::Equal {
        cmp_tree(a[0].0, b[0].0)
    } else if cmp_tree(a[0].1, b[0].1) != Ordering::Equal {
        cmp_tree(a[0].1, b[0].1)
    } else {
        cmp_pairs(a.drop_first(), b.drop_first())
    }
}

fn compare_int(a: i128, b: i128) -> (r: Ordering)
    ensures
        r == cmp_int(a as int, b as int),
{
    if a < b {
        Ordering::Less
    } else if a > b {
        Ordering::Greater
    } else {
        Ordering::Equal
    }
}

fn f32_order_key(b: u32) -> (r: i128)
    ensures
        r as int == f32_key(b),
{
    let m = b % 0x8000_0000;
    if m > 0x7f80_0000 {
        0x8000_0000
    } else if b >= 0x8000_0000 {
        -(m as i128)
    } else {
        m as i128
    }
}

fn f64_order_key(b: u64) -> (r: i128)
    ensures
        r as int == f64_key(b),
{
    let m = b % 0x8000_0000_0000_0000;
    if m > 0x7ff0_0000_0000_0000 {
        0x8000_0000_0000_0000
    } else if b >= 0x8000_0000_0000_0000 {
        -(m as i128)
    } else {
        m as i128
    }
}

/// Compares two strings by code point.
pub fn compare_str(a: &str, b: &str) -> (r: Ordering)
    ensures
        r == cmp_chars(a@, b@),
{
    let x = chars_of(a);
    let y = chars_of(b);
    let mut i: usize = 0;
    assert(a@.skip(0) =~= a@ && b@.skip(0) =~= b@);
    while i < x.len() && i < y.len()
        invariant
            x@ == a@,
            y@ == b@,
            i <= x.len() && i <= y.len(),
            cmp_chars(a@, b@) == cmp_chars(a@.skip(i as int), b@.skip(i as int)),
        decreases x.len() - i,
    {
        proof {
            assert(a@.skip(i as int).drop_first() =~= a@.skip(i + 1));
            assert(b@.skip(i as int).drop_first() =~= b@.skip(i + 1));
        }
        if x[i] != y[i] {
            let cx: u32 = x[i] as u32;
            let cy: u32 = y[i] as u32;
            return compare_int(cx as i128, cy as i128);
        }
        i = i + 1;
    }
    compare_int(x.len() as i128 - i as i128, y.len() as i128 - i as i128)
}

fn compare_bytes(a: &Vec<u8>, b: &Vec<u8>) -> (r: Ordering)
    ensures
        r == cmp_bytes(a@, b@),
{
    let mut i: usize = 0;
    assert(a@.skip(0) =~= a@ && b@.skip(0) =~= b@);
    while i < a.len() && i < b.len()
        invariant
            i <= a.len() && i <= b.len(),
            cmp_bytes(a@, b@) == cmp_bytes(a@.skip(i as int), b@.skip(i as int)),
        decreases a.len() - i,
    {
        proof {
            assert(a@.skip(i as int).drop_first() =~= a@.skip(i + 1));
            assert(b@.skip(i as int).drop_first() =~= b@.skip(i + 1));
        }
        if a[i] != b[i] {
            return compare_int(a[i] as i128, b[i] as i128);
        }
        i = i + 1;
    }
    compare_int(a.len() as i128 - i as i128, b.len() as i128 - i as i128)
}

fn compare_chunk(a: &Chunk, b: &Chunk) -> (r: Ordering)
    ensures
        r == cmp_chunk(a@, b@),
{
    match (a, b) {
        (Chunk::Text(x), Chunk::Text(y)) => compare_str(x.as_str(), y.as_str()),
        (Chunk::Mdc(x), Chunk::Mdc(y)) => compare_str(x.as_str(), y.as_str()),
        (Chunk::Text(_), Chunk::Mdc(_)) => Ordering::Less,
        (Chunk::Mdc(_), Chunk::Text(_)) => Ordering::Greater,
    }
}

fn compare_chunks(a: &Vec<Chunk>, b: &Vec<Chunk>) -> (r: Ordering)
    ensures
        r == cmp_chunks(chunk_views(a@), chunk_views(b@)),
{
    let ghost x = chunk_views(a@);
    let ghost y = chunk_views(b@);
    let mut i: usize = 0;
    assert(x.skip(0) =~= x && y.skip(0) =~= y);
    while i < a.len() && i < b.len()
        invariant
            x == chunk_views(a@),
            y == chunk_views(b@),
            i <= a.len() && i <= b.len(),
            cmp_chunks(x, y) == cmp_chunks(x.skip(i as int), y.skip(i as int)),
        decreases a.len() - i,
    {
        proof {
            assert(x.skip(i as int).drop_first() =~= x.skip(i + 1));
            assert(y.skip(i as int).drop_first() =~= y.skip(i + 1));
            assert(x.skip(i as int)[0] == a@[i as int]@);
            assert(y.skip(i as int)[0] == b@[i as int]@);
        }
        let c = compare_chunk(&a[i], &b[i]);
        if !matches!(c, Ordering::Equal) {
            return c;
        }
        i = i + 1;
    }
    compare_int(a.len() as i128 - i as i128, b.len() as i128 - i as i128)
}

impl ValueTemplate {
    /// The position of this template's variant in the order across variants.
    pub fn discriminant(&self) -> (r: usize)
        ensures
            r == rank(self@),
    {
        match self {
            ValueTemplate::Bool(..) => 0,
            ValueTemplate::Usize(..) => 1,
            ValueTemplate::U8(..) => 2,
            ValueTemplate::U16(..) => 3,
            ValueTemplate::U32(..) => 4,
            ValueTemplate::U64(..) => 5,
            ValueTemplate::Isize(..) => 6,
            ValueTemplate::I8(..) => 7,
            ValueTemplate::I16(..) => 8,
            ValueTemplate::I32(..) => 9,
            ValueTemplate::I64(..) => 10,
            ValueTemplate::Float32Bits(..) => 11,
            ValueTemplate::Float64Bits(..) => 12,
            ValueTemplate::Char(..) => 13,
            ValueTemplate::Str(..) => 14,
            ValueTemplate::Unit => 15,
            ValueTemplate::UnitStruct(..) => 16,
            ValueTemplate::Optional(..) => 17,
            ValueTemplate::Newtype(..) => 18,
            ValueTemplate::Sequence(..) => 19,
            ValueTemplate::Mapping(..) => 20,
            ValueTemplate::Bytes(..) => 21,
        }
    }

    /// Compares two templates in the total order.
    pub fn compare(&self, other: &ValueTemplate) -> (r: Ordering)
        ensures
            r == cmp_tree(self@, other@),
        decreases self,
    {
        match (self, other) {
            (ValueTemplate::Bool(x), ValueTemplate::Bool(y)) => compare_int(
                if *x { 1 } else { 0 },
                if *y { 1 } else { 0 },
            ),
            (ValueTemplate::Usize(x), ValueTemplate::Usize(y)) => compare_int(*x as i128, *y as i128),
            (ValueTemplate::U8(x), ValueTemplate::U8(y)) => compare_int(*x as i128, *y as i128),
            (ValueTemplate::U16(x), ValueTemplate::U16(y)) => compare_int(*x as i128, *y as i128),
            (ValueTemplate::U32(x), ValueTemplate::U32(y)) => compare_int(*x as i128, *y as i128),
            (ValueTemplate::U64(x), ValueTemplate::U64(y)) => compare_int(*x as i128, *y as i128),
            (ValueTemplate::Isize(x), ValueTemplate::Isize(y)) => compare_int(*x as i128, *y as i128),
            (ValueTemplate::I8(x), ValueTemplate::I8(y)) => compare_int(*x as i128, *y as i128),
            (ValueTemplate::I16(x), ValueTemplate::I16(y)) => compare_int(*x as i128, *y as i128),
            (ValueTemplate::I32(x), ValueTemplate::I32(y)) => compare_int(*x as i128, *y as i128),
            (ValueTemplate::I64(x), ValueTemplate::I64(y)) => compare_int(*x as i128, *y as i128),
            (ValueTemplate::Float32Bits(x), ValueTemplate::Float32Bits(y)) => compare_int(
                f32_order_key(*x),
                f32_order_key(*y),
            ),
            (ValueTemplate::Float64Bits(x), ValueTemplate::Float64Bits(y)) => compare_int(
                f64_order_key(*x),
                f64_order_key(*y),
            ),
            (ValueTemplate::Char(x), ValueTemplate::Char(y)) => {
                let cx: u32 = *x as u32;
                let cy: u32 = *y as u32;
                compare_int(cx as i128, cy as i128)
            },
            (ValueTemplate::Str(x), ValueTemplate::Str(y)) => compare_chunks(x, y),
            (ValueTemplate::Unit, ValueTemplate::Unit) => Ordering::Equal,
            (ValueTemplate::UnitStruct(x), ValueTemplate::UnitStruct(y)) => compare_str(*x, *y),
            (ValueTemplate::Optional(x), ValueTemplate::Optional(y)) => match (x, y) {
                (None, None) => Ordering::Equal,
                (None, Some(_)) => Ordering::Less,
                (Some(_), None) => Ordering::Greater,
                (Some(p), Some(q)) => p.compare(q),
            },
            (ValueTemplate::Newtype(x), ValueTemplate::Newtype(y)) => x.compare(y),
            (ValueTemplate::Sequence(x), ValueTemplate::Sequence(y)) => {
                let ghost xm = template_models(x@);
                let ghost ym = template_models(y@);
                proof {
                    lemma_template_models(x@);
                    lemma_template_models(y@);
                    assert forall|j: int| 0 <= j < x.len() implies decreases_to!(self => #[trigger] x@[j]) by {
                        assert(decreases_to!(x@ => x@[j]));
                    }
                    assert(xm.skip(0) =~= xm && ym.skip(0) =~= ym);
                }
                let mut i: usize = 0;
                while i < x.len() && i < y.len()
                    invariant
                        *self == ValueTemplate::Sequence(*x),
                        *other == ValueTemplate::Sequence(*y),
                        forall|j: int| 0 <= j < x.len() ==> decreases_to!(self => #[trigger] x@[j]),
                        xm == template_models(x@),
                        ym == template_models(y@),
                        xm.len() == x.len(),
                        ym.len() == y.len(),
                        forall|j: int| 0 <= j < x.len() ==> #[trigger] xm[j] == x@[j]@,
                        forall|j: int| 0 <= j < y.len() ==> #[trigger] ym[j] == y@[j]@,
                        i <= x.len() && i <= y.len(),
                        cmp_list(xm, ym) == cmp_list(xm.skip(i as int), ym.skip(i as int)),
                    decreases x.len() - i,
                {
                    proof {
                        assert(xm.skip(i as int).drop_first() =~= xm.skip(i + 1));
                        assert(ym.skip(i as int).drop_first() =~= ym.skip(i + 1));
                        assert(xm.skip(i as int)[0] == xm[i as int]);
                        assert(ym.skip(i as int)[0] == ym[i as int]);
                    }
                    let c = x[i].compare(&y[i]);
                    if !matches!(c, Ordering::Equal) {
                        return c;
                    }
                    i = i + 1;
                }
                compare_int(x.len() as i128 - i as i128, y.len() as i128 - i as i128)
            },
            (ValueTemplate::Mapping(x), ValueTemplate::Mapping(y)) => {
                let ghost xm = template_pair_models(x@);
                let ghost ym = template_pair_models(y@);
                proof {
                    lemma_template_pair_models(x@);
                    lemma_template_pair_models(y@);
                    assert forall|j: int| 0 <= j < x.len() implies decreases_to!(self => #[trigger] x@[j]) by {
                        assert(decreases_to!(x@ => x@[j]));
                    }
                    assert(xm.skip(0) =~= xm && ym.skip(0) =~= ym);
                }
                let mut i: usize = 0;
                while i < x.len() && i < y.len()
                    invariant
                        *self == ValueTemplate::Mapping(*x),
                        *other == ValueTemplate::Mapping(*y),
                        forall|j: int| 0 <= j < x.len() ==> decreases_to!(self => #[trigger] x@[j]),
                        xm == template_pair_models(x@),
                        ym == template_pair_models(y@),
                        xm.len() == x.len(),
                        ym.len() == y.len(),
                        forall|j: int| 0 <= j < x.len() ==> #[trigger] xm[j] == (x@[j].0@, x@[j].1@),
                        forall|j: int| 0 <= j < y.len() ==> #[trigger] ym[j] == (y@[j].0@, y@[j].1@),
                        i <= x.len() && i <= y.len(),
                        cmp_pairs(xm, ym) == cmp_pairs(xm.skip(i as int), ym.skip(i as int)),
                    decreases x.len() - i,
                {
                    proof {
                        assert(xm.skip(i as int).drop_first() =~= xm.skip(i + 1));
                        assert(ym.skip(i as int).drop_first() =~= ym.skip(i + 1));
                        assert(xm.skip(i as int)[0] == xm[i as int]);
                        assert(ym.skip(i as int)[0] == ym[i as int]);
                    }
                    let c = x[i].0.compare(&y[i].0);
                    if !matches!(c, Ordering::Equal) {
                        return c;
                    }
                    let c = x[i].1.compare(&y[i].1);
                    if !matches!(c, Ordering::Equal) {
                        return c;
                    }
                    i = i + 1;
                }
                compare_int(x.len() as i128 - i as i128, y.len() as i128 - i as i128)
            },
            (ValueTemplate::Bytes(x), ValueTemplate::Bytes(y)) => compare_bytes(x, y),
            _ => compare_int(self.discriminant() as i128, other.discriminant() as i128),
        }
    }
}

impl PartialEq for ValueTemplate {
    fn eq(&self, other: &ValueTemplate) -> (r: bool) {
        match self.compare(other) {
            Ordering::Equal => true,
            _ => false,
        }
    }
}

impl vstd::std_specs::cmp::PartialEqSpecImpl for ValueTemplate {
    open spec fn obeys_eq_spec() -> bool {
        true
    }

    open spec fn eq_spec(&self, other: &ValueTemplate) -> bool {
        cmp_tree(self@, other@) == Ordering::Equal
    }
}

} // verus!
