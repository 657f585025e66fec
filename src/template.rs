//! Compiled configuration templates: every string leaf of a configuration
//! value becomes a list of chunks, literal text or a context key, which is
//! expanded again against a context on each use.
use vstd::prelude::*;
use crate::context::Context;
use crate::text::{
    chars_of, decimal, digit_char, utf8_len, is_digit, lemma_decimal, lemma_decimal_injective,
    lemma_utf8_len_concat, lemma_utf8_len_positive,
};
use vstd::string::StringExecFns;
use crate::parser::{Parser, Piece, PieceView, str_views, piece_at, lemma_piece_advances};
use crate::value::{
    Tree, Value, ValueModel, value_models, value_pair_models, lemma_value_models,
    lemma_value_pair_models,
};

verus! {

broadcast use vstd::std_specs::vec::axiom_vec_index_decreases;

/// One piece of a compiled string.
#[derive(Debug)]
pub enum Chunk {
    /// Literal text.
    Text(String),
    /// The value of a context key.
    Mdc(String),
}

pub enum ChunkView {
    Text(Seq<char>),
    Mdc(Seq<char>),
}

impl View for Chunk {
    type V = ChunkView;

    open spec fn view(&self) -> ChunkView {
        match self {
            Chunk::Text(t) => ChunkView::Text(t@),
            Chunk::Mdc(k) => ChunkView::Mdc(k@),
        }
    }
}

pub open spec fn chunk_views(s: Seq<Chunk>) -> Seq<ChunkView> {
    s.map_values(|c: Chunk| c@)
}

/// A compiled template seen as a tree whose string leaves are chunk lists.
pub type TemplateModel = Tree<Seq<ChunkView>>;

/// A configuration value whose string leaves have been compiled.
#[derive(Debug)]
pub enum ValueTemplate {
    Mapping(Vec<(ValueTemplate, ValueTemplate)>),
    Newtype(Box<ValueTemplate>),
    Optional(Option<Box<ValueTemplate>>),
    Sequence(Vec<ValueTemplate>),
    Str(Vec<Chunk>),
    Bool(bool),
    Bytes(Vec<u8>),
    Char(char),
    Float32Bits(u32),
    Float64Bits(u64),
    I8(i8),
    I16(i16),
    I32(i32),
    I64(i64),
    Isize(isize),
    U8(u8),
    U16(u16),
    U32(u32),
    U64(u64),
    Usize(usize),
    Unit,
    UnitStruct(&'static str),
}

pub open spec fn template_models(s: Seq<ValueTemplate>) -> Seq<TemplateModel>
    decreases s,
{
    if s.len() == 0 {
        Seq::empty()
    } else {
        template_models(s.drop_last()).push(s.last().model())
    }
}

pub open spec fn template_pair_models(s: Seq<(ValueTemplate, ValueTemplate)>) -> Seq<
    (TemplateModel, TemplateModel),
>
    decreases s,
{
    if s.len() == 0 {
        Seq::empty()
    } else {
        template_pair_models(s.drop_last()).push((s.last().0.model(), s.last().1.model()))
    }
}

impl ValueTemplate {
    pub open spec fn model(self) -> TemplateModel
        decreases self,
    {
        match self {
            ValueTemplate::Mapping(m) => Tree::Mapping(template_pair_models(m@)),
            ValueTemplate::Newtype(v) => Tree::Newtype(Box::new((*v).model())),
            ValueTemplate::Optional(o) => match o {
                Some(v) => Tree::Optional(Some(Box::new((*v).model()))),
                None => Tree::Optional(None),
            },
            ValueTemplate::Sequence(vs) => Tree::Sequence(template_models(vs@)),
            ValueTemplate::Str(c) => Tree::Leaf(chunk_views(c@)),
            ValueTemplate::Bool(b) => Tree::Bool(b),
            ValueTemplate::Bytes(b) => Tree::Bytes(b@),
            ValueTemplate::Char(c) => Tree::Char(c),
            ValueTemplate::Float32Bits(f) => Tree::Float32Bits(f),
            ValueTemplate::Float64Bits(f) => Tree::Float64Bits(f),
            ValueTemplate::I8(i) => Tree::I8(i),
            ValueTemplate::I16(i) => Tree::I16(i),
            ValueTemplate::I32(i) => Tree::I32(i),
            ValueTemplate::I64(i) => Tree::I64(i),
            ValueTemplate::Isize(i) => Tree::Isize(i),
            ValueTemplate::U8(u) => Tree::U8(u),
            ValueTemplate::U16(u) => Tree::U16(u),
            ValueTemplate::U32(u) => Tree::U32(u),
            ValueTemplate::U64(u) => Tree::U64(u),
            ValueTemplate::Usize(u) => Tree::Usize(u),
            ValueTemplate::Unit => Tree::Unit,
            ValueTemplate::UnitStruct(n) => Tree::UnitStruct(n@),
        }
    }
}

impl View for ValueTemplate {
    type V = TemplateModel;

    open spec fn view(&self) -> TemplateModel {
        self.model()
    }
}

/// Why a template did not compile; each names the offending string.
#[derive(Debug)]
pub enum TemplateError {
    /// The placeholder syntax is malformed.
    Syntax { reason: &'static str, template: String },
    /// A placeholder names a function other than `mdc`.
    UnknownFunction { name: String, template: String },
    /// An `mdc` placeholder without exactly one argument.
    ArgumentCount { template: String },
}

pub enum TemplateErrorView {
    Syntax { reason: Seq<char>, template: Seq<char> },
    UnknownFunction { name: Seq<char>, template: Seq<char> },
    ArgumentCount { template: Seq<char> },
}

impl View for TemplateError {
    type V = TemplateErrorView;

    open spec fn view(&self) -> TemplateErrorView {
        match self {
            TemplateError::Syntax { reason, template } => TemplateErrorView::Syntax {
                reason: reason@,
                template: template@,
            },
            TemplateError::UnknownFunction { name, template } => TemplateErrorView::UnknownFunction {
                name: name@,
                template: template@,
            },
            TemplateError::ArgumentCount { template } => TemplateErrorView::ArgumentCount {
                template: template@,
            },
        }
    }
}

pub open spec fn mdc_name() -> Seq<char> {
    seq!['m', 'd', 'c']
}

/// The chunks of the pieces of `s` from position `i` on, or the first error.
pub open spec fn chunks_from(s: Seq<char>, i: int) -> Result<Seq<ChunkView>, TemplateErrorView>
    decreases s.len() - i,
{
    if 0 <= i < s.len() {
        proof {
            lemma_piece_advances(s, i);
        }
        let (p, e) = piece_at(s, i)->0;
        match p {
            PieceView::Text(t) => match chunks_from(s, e) {
                Ok(r) => Ok(seq![ChunkView::Text(t)] + r),
                Err(x) => Err(x),
            },
            PieceView::Argument { name, args } => if name == mdc_name() {
                if args.len() == 1 {
                    match chunks_from(s, e) {
                        Ok(r) => Ok(seq![ChunkView::Mdc(args[0])] + r),
                        Err(x) => Err(x),
                    }
                } else {
                    Err(TemplateErrorView::ArgumentCount { template: s })
                }
            } else {
                Err(TemplateErrorView::UnknownFunction { name, template: s })
            },
            PieceView::Error(m) => Err(TemplateErrorView::Syntax { reason: m, template: s }),
        }
    } else {
        Ok(Seq::empty())
    }
}

/// The compiled form of a string leaf.
pub open spec fn compile_string(s: Seq<char>) -> Result<Seq<ChunkView>, TemplateErrorView> {
    chunks_from(s, 0)
}

/// The compiled form of a value, or the first error met in a depth-first,
/// left-to-right walk (a map entry's key before its value).
pub open spec fn compile(v: ValueModel) -> Result<TemplateModel, TemplateErrorView>
    decreases v,
{
    match v {
        Tree::Mapping(m) => match compile_pairs(m) {
            Ok(r) => Ok(Tree::Mapping(r)),
            Err(e) => Err(e),
        },
        Tree::Newtype(b) => match compile(*b) {
            Ok(r) => Ok(Tree::Newtype(Box::new(r))),
            Err(e) => Err(e),
        },
        Tree::Optional(o) => match o {
            Some(b) => match compile(*b) {
                Ok(r) => Ok(Tree::Optional(Some(Box::new(r)))),
                Err(e) => Err(e),
            },
            None => Ok(Tree::Optional(None)),
        },
        Tree::Sequence(s) => match compile_list(s) {
            Ok(r) => Ok(Tree::Sequence(r)),
            Err(e) => Err(e),
        },
        Tree::Leaf(s) => match compile_string(s) {
            Ok(c) => Ok(Tree::Leaf(c)),
            Err(e) => Err(e),
        },
        Tree::Bool(b) => Ok(Tree::Bool(b)),
        Tree::Bytes(b) => Ok(Tree::Bytes(b)),
        Tree::Char(c) => Ok(Tree::Char(c)),
        Tree::Float32Bits(f) => Ok(Tree::Float32Bits(f)),
        Tree::Float64Bits(f) => Ok(Tree::Float64Bits(f)),
        Tree::I8(i) => Ok(Tree::I8(i)),
        Tree::I16(i) => Ok(Tree::I16(i)),
        Tree::I32(i) => Ok(Tree::I32(i)),
        Tree::I64(i) => Ok(Tree::I64(i)),
        Tree::Isize(i) => Ok(Tree::Isize(i)),
        Tree::U8(u) => Ok(Tree::U8(u)),
        Tree::U16(u) => Ok(Tree::U16(u)),
        Tree::U32(u) => Ok(Tree::U32(u)),
        Tree::U64(u) => Ok(Tree::U64(u)),
        Tree::Usize(u) => Ok(Tree::Usize(u)),
        Tree::Unit => Ok(Tree::Unit),
        Tree::UnitStruct(n) => Ok(Tree::UnitStruct(n)),
    }
}

pub open spec fn compile_list(s: Seq<ValueModel>) -> Result<Seq<TemplateModel>, TemplateErrorView>
    decreases s,
{
    if s.len() == 0 {
        Ok(Seq::empty())
    } else {
        match compile_list(s.drop_last()) {
            Err(e) => Err(e),
            Ok(r) => match compile(s.last()) {
                Err(e) => Err(e),
                Ok(t) => Ok(r.push(t)),
            },
        }
    }
}

pub open spec fn compile_pairs(s: Seq<(ValueModel, ValueModel)>) -> Result<
    Seq<(TemplateModel, TemplateModel)>,
    TemplateErrorView,
>
    decreases s,
{
    if s.len() == 0 {
        Ok(Seq::empty())
    } else {
        match compile_pairs(s.drop_last()) {
            Err(e) => Err(e),
            Ok(r) => match compile(s.last().0) {
                Err(e) => Err(e),
                Ok(k) => match compile(s.last().1) {
                    Err(e) => Err(e),
                    Ok(v) => Ok(r.push((k, v))),
                },
            },
        }
    }
}

pub proof fn lemma_template_models(s: Seq<ValueTemplate>)
    ensures
        template_models(s).len() == s.len(),
        forall|i: int| 0 <= i < s.len() ==> #[trigger] template_models(s)[i] == s[i]@,
    decreases s.len(),
{
    if s.len() > 0 {
        lemma_template_models(s.drop_last());
    }
}

pub proof fn lemma_template_pair_models(s: Seq<(ValueTemplate, ValueTemplate)>)
    ensures
        template_pair_models(s).len() == s.len(),
        forall|i: int|
            0 <= i < s.len() ==> #[trigger] template_pair_models(s)[i] == (s[i].0@, s[i].1@),
    decreases s.len(),
{
    if s.len() > 0 {
        lemma_template_pair_models(s.drop_last());
    }
}

/// Once a prefix of a list fails to compile, the whole list fails the same way.
pub proof fn lemma_compile_list_prefix_err(s: Seq<ValueModel>, i: int)
    requires
        0 <= i <= s.len(),
        compile_list(s.take(i)) is Err,
    ensures
        compile_list(s) == compile_list(s.take(i)),
    decreases s.len() - i,
{
    if i == s.len() {
        assert(s.take(i) =~= s);
    } else {
        assert(s.take(i + 1).drop_last() =~= s.take(i));
        lemma_compile_list_prefix_err(s, i + 1);
    }
}

/// Once a prefix of a map fails to compile, the whole map fails the same way.
pub proof fn lemma_compile_pairs_prefix_err(s: Seq<(ValueModel, ValueModel)>, i: int)
    requires
        0 <= i <= s.len(),
        compile_pairs(s.take(i)) is Err,
    ensures
        compile_pairs(s) == compile_pairs(s.take(i)),
    decreases s.len() - i,
{
    if i == s.len() {
        assert(s.take(i) =~= s);
    } else {
        assert(s.take(i + 1).drop_last() =~= s.take(i));
        lemma_compile_pairs_prefix_err(s, i + 1);
    }
}

fn is_mdc(name: &str) -> (r: bool)
    ensures
        r == (name@ == mdc_name()),
{
    let c = chars_of(name);
    let r = c.len() == 3 && c[0] == 'm' && c[1] == 'd' && c[2] == 'c';
    proof {
        if r {
            assert(name@ =~= mdc_name());
        }
    }
    r
}

/// Compiles one string leaf into its chunks.
fn compile_str(s: &String) -> (r: Result<Vec<Chunk>, TemplateError>)
    ensures
        match compile_string(s@) {
            Ok(c) => r is Ok && chunk_views(r->Ok_0@) == c,
            Err(e) => r is Err && r->Err_0@ == e,
        },
{
    let mut parser = Parser::new(s.as_str());
    let mut chunks: Vec<Chunk> = Vec::new();
    loop
        invariant
            parser.wf(),
            parser.input() == s@,
            0 <= parser.position() <= s@.len(),
            match chunks_from(s@, parser.position()) {
                Ok(rest) => compile_string(s@) == Ok::<Seq<ChunkView>, TemplateErrorView>(
                    chunk_views(chunks@) + rest,
                ),
                Err(e) => compile_string(s@) == Err::<Seq<ChunkView>, TemplateErrorView>(e),
            },
        decreases s@.len() - parser.position(),
    {
        let ghost i = parser.position();
        proof {
            if i < s@.len() {
                lemma_piece_advances(s@, i);
            }
        }
        let ghost before = chunks@;
        match parser.next() {
            None => {
                assert(chunk_views(chunks@) + Seq::<ChunkView>::empty() =~= chunk_views(chunks@));
                return Ok(chunks);
            },
            Some(piece) => match piece {
                Piece::Text(t) => {
                    chunks.push(Chunk::Text(t.to_owned()));
                    proof {
                        assert(chunk_views(chunks@) =~= chunk_views(before).push(
                            ChunkView::Text(t@),
                        ));
                        if let Ok(rest) = chunks_from(s@, parser.position()) {
                            assert(chunk_views(before) + (seq![ChunkView::Text(t@)] + rest)
                                =~= chunk_views(chunks@) + rest);
                        }
                    }
                },
                Piece::Argument { name, args } => {
                    if !is_mdc(name) {
                        return Err(
                            TemplateError::UnknownFunction { name: name.to_owned(), template: s.clone() },
                        );
                    }
                    if args.len() != 1 {
                        return Err(TemplateError::ArgumentCount { template: s.clone() });
                    }
                    let key = args[0].to_owned();
                    chunks.push(Chunk::Mdc(key));
                    proof {
                        assert(str_views(args@)[0] == args@[0]@);
                        assert(chunk_views(chunks@) =~= chunk_views(before).push(
                            ChunkView::Mdc(args@[0]@),
                        ));
                        if let Ok(rest) = chunks_from(s@, parser.position()) {
                            assert(chunk_views(before) + (seq![ChunkView::Mdc(args@[0]@)] + rest)
                                =~= chunk_views(chunks@) + rest);
                        }
                    }
                },
                Piece::Error(e) => {
                    return Err(TemplateError::Syntax { reason: e, template: s.clone() });
                },
            },
        }
    }
}

impl ValueTemplate {
    /// Compiles every string leaf of `value`.
    pub fn new(value: &Value) -> (r: Result<ValueTemplate, TemplateError>)
        ensures
            match compile(value@) {
                Ok(t) => r is Ok && r->Ok_0@ == t,
                Err(e) => r is Err && r->Err_0@ == e,
            },
        decreases value,
    {
        match value {
            Value::Mapping(m) => {
                let ghost ms = value_pair_models(m@);
                proof {
                    lemma_value_pair_models(m@);
                }
                let mut out: Vec<(ValueTemplate, ValueTemplate)> = Vec::new();
                let mut i: usize = 0;
                while i < m.len()
                    invariant
                        i <= m.len(),
                        *value == Value::Mapping(*m),
                        ms == value_pair_models(m@),
                        ms.len() == m.len(),
                        forall|j: int| 0 <= j < m.len() ==> #[trigger] ms[j] == (m@[j].0@, m@[j].1@),
                        compile_pairs(ms.take(i as int)) == Ok::<Seq<(TemplateModel, TemplateModel)>, TemplateErrorView>(
                            template_pair_models(out@),
                        ),
                    decreases m.len() - i,
                {
                    proof {
                        assert(ms.take(i + 1).drop_last() =~= ms.take(i as int));
                        assert(ms.take(i + 1).last() == ms[i as int]);
                        assert(decreases_to!(m@ => m@[i as int]));
                    }
                    let k = match ValueTemplate::new(&m[i].0) {
                        Ok(k) => k,
                        Err(e) => {
                            proof {
                                lemma_compile_pairs_prefix_err(ms, i + 1);
                            }
                            return Err(e);
                        },
                    };
                    let v = match ValueTemplate::new(&m[i].1) {
                        Ok(v) => v,
                        Err(e) => {
                            proof {
                                lemma_compile_pairs_prefix_err(ms, i + 1);
                            }
                            return Err(e);
                        },
                    };
                    let ghost before = out@;
                    out.push((k, v));
                    proof {
                        assert(out@.drop_last() =~= before);
                    }
                    i = i + 1;
                }
                proof {
                    assert(ms.take(i as int) =~= ms);
                }
                Ok(ValueTemplate::Mapping(out))
            },
            Value::Newtype(b) => match ValueTemplate::new(b) {
                Ok(t) => Ok(ValueTemplate::Newtype(Box::new(t))),
                Err(e) => Err(e),
            },
            Value::Optional(o) => match o {
                Some(b) => match ValueTemplate::new(b) {
                    Ok(t) => Ok(ValueTemplate::Optional(Some(Box::new(t)))),
                    Err(e) => Err(e),
                },
                None => Ok(ValueTemplate::Optional(None)),
            },
            Value::Sequence(vs) => {
                let ghost ms = value_models(vs@);
                proof {
                    lemma_value_models(vs@);
                }
                let mut out: Vec<ValueTemplate> = Vec::new();
                let mut i: usize = 0;
                while i < vs.len()
                    invariant
                        i <= vs.len(),
                        *value == Value::Sequence(*vs),
                        ms == value_models(vs@),
                        ms.len() == vs.len(),
                        forall|j: int| 0 <= j < vs.len() ==> #[trigger] ms[j] == vs@[j]@,
                        compile_list(ms.take(i as int)) == Ok::<Seq<TemplateModel>, TemplateErrorView>(
                            template_models(out@),
                        ),
                    decreases vs.len() - i,
                {
                    proof {
                        assert(ms.take(i + 1).drop_last() =~= ms.take(i as int));
                        assert(ms.take(i + 1).last() == ms[i as int]);
                    }
                    let t = match ValueTemplate::new(&vs[i]) {
                        Ok(t) => t,
                        Err(e) => {
                            proof {
                                lemma_compile_list_prefix_err(ms, i + 1);
                            }
                            return Err(e);
                        },
                    };
                    let ghost before = out@;
                    out.push(t);
                    proof {
                        assert(out@.drop_last() =~= before);
                    }
                    i = i + 1;
                }
                proof {
                    assert(ms.take(i as int) =~= ms);
                }
                Ok(ValueTemplate::Sequence(out))
            },
            Value::Str(s) => match compile_str(s) {
                Ok(c) => Ok(ValueTemplate::Str(c)),
                Err(e) => Err(e),
            },
            Value::Bool(b) => Ok(ValueTemplate::Bool(*b)),
            Value::Bytes(b) => Ok(ValueTemplate::Bytes(b.clone())),
            Value::Char(c) => Ok(ValueTemplate::Char(*c)),
            Value::Float32Bits(f) => Ok(ValueTemplate::Float32Bits(*f)),
            Value::Float64Bits(f) => Ok(ValueTemplate::Float64Bits(*f)),
            Value::I8(i) => Ok(ValueTemplate::I8(*i)),
            Value::I16(i) => Ok(ValueTemplate::I16(*i)),
            Value::I32(i) => Ok(ValueTemplate::I32(*i)),
            Value::I64(i) => Ok(ValueTemplate::I64(*i)),
            Value::Isize(i) => Ok(ValueTemplate::Isize(*i)),
            Value::U8(u) => Ok(ValueTemplate::U8(*u)),
            Value::U16(u) => Ok(ValueTemplate::U16(*u)),
            Value::U32(u) => Ok(ValueTemplate::U32(*u)),
            Value::U64(u) => Ok(ValueTemplate::U64(*u)),
            Value::Usize(u) => Ok(ValueTemplate::Usize(*u)),
            Value::Unit => Ok(ValueTemplate::Unit),
            Value::UnitStruct(n) => Ok(ValueTemplate::UnitStruct(*n)),
        }
    }
}

/// The context keys named by a chunk list, in order.
pub open spec fn chunk_keys(cs: Seq<ChunkView>) -> Seq<Seq<char>>
    decreases cs.len(),
{
    if cs.len() == 0 {
        Seq::empty()
    } else {
        match cs.last() {
            ChunkView::Mdc(k) => chunk_keys(cs.drop_last()).push(k),
            ChunkView::Text(_) => chunk_keys(cs.drop_last()),
        }
    }
}

/// The context keys named anywhere in a template, in walk order.
pub open spec fn mdc_keys(t: TemplateModel) -> Seq<Seq<char>>
    decreases t,
{
    match t {
        Tree::Mapping(m) => pair_keys(m),
        Tree::Newtype(b) => mdc_keys(*b),
        Tree::Optional(o) => match o {
            Some(b) => mdc_keys(*b),
            None => Seq::empty(),
        },
        Tree::Sequence(s) => list_keys(s),
        Tree::Leaf(c) => chunk_keys(c),
        _ => Seq::empty(),
    }
}

pub open spec fn list_keys(s: Seq<TemplateModel>) -> Seq<Seq<char>>
    decreases s,
{
    if s.len() == 0 {
        Seq::empty()
    } else {
        list_keys(s.drop_last()) + mdc_keys(s.last())
    }
}

pub open spec fn pair_keys(s: Seq<(TemplateModel, TemplateModel)>) -> Seq<Seq<char>>
    decreases s,
{
    if s.len() == 0 {
        Seq::empty()
    } else {
        pair_keys(s.drop_last()) + mdc_keys(s.last().0) + mdc_keys(s.last().1)
    }
}

/// The set of context keys that a template refers to.
pub open spec fn referenced_keys(t: TemplateModel) -> Set<Seq<char>> {
    mdc_keys(t).to_set()
}

/// The text that stands for an absent context key.
pub open spec fn missing() -> Seq<char> {
    "<missing>"@
}

/// The value of `k` in `ctx`, or the text for an absent key.
pub open spec fn lookup(ctx: Map<Seq<char>, Seq<char>>, k: Seq<char>) -> Seq<char> {
    if ctx.contains_key(k) {
        ctx[k]
    } else {
        missing()
    }
}

/// The string that a chunk list stands for in `ctx`.
pub open spec fn expand_chunks(cs: Seq<ChunkView>, ctx: Map<Seq<char>, Seq<char>>) -> Seq<char>
    decreases cs.len(),
{
    if cs.len() == 0 {
        Seq::empty()
    } else {
        expand_chunks(cs.drop_last(), ctx) + match cs.last() {
            ChunkView::Text(t) => t,
            ChunkView::Mdc(k) => lookup(ctx, k),
        }
    }
}

/// The value that a template stands for in `ctx`.
pub open spec fn expand(t: TemplateModel, ctx: Map<Seq<char>, Seq<char>>) -> ValueModel
    decreases t,
{
    match t {
        Tree::Mapping(m) => Tree::Mapping(expand_pairs(m, ctx)),
        Tree::Newtype(b) => Tree::Newtype(Box::new(expand(*b, ctx))),
        Tree::Optional(o) => match o {
            Some(b) => Tree::Optional(Some(Box::new(expand(*b, ctx)))),
            None => Tree::Optional(None),
        },
        Tree::Sequence(s) => Tree::Sequence(expand_list(s, ctx)),
        Tree::Leaf(c) => Tree::Leaf(expand_chunks(c, ctx)),
        Tree::Bool(b) => Tree::Bool(b),
        Tree::Bytes(b) => Tree::Bytes(b),
        Tree::Char(c) => Tree::Char(c),
        Tree::Float32Bits(f) => Tree::Float32Bits(f),
        Tree::Float64Bits(f) => Tree::Float64Bits(f),
        Tree::I8(i) => Tree::I8(i),
        Tree::I16(i) => Tree::I16(i),
        Tree::I32(i) => Tree::I32(i),
        Tree::I64(i) => Tree::I64(i),
        Tree::Isize(i) => Tree::Isize(i),
        Tree::U8(u) => Tree::U8(u),
        Tree::U16(u) => Tree::U16(u),
        Tree::U32(u) => Tree::U32(u),
        Tree::U64(u) => Tree::U64(u),
        Tree::Usize(u) => Tree::Usize(u),
        Tree::Unit => Tree::Unit,
        Tree::UnitStruct(n) => Tree::UnitStruct(n),
    }
}

pub open spec fn expand_list(s: Seq<TemplateModel>, ctx: Map<Seq<char>, Seq<char>>) -> Seq<ValueModel>
    decreases s,
{
    if s.len() == 0 {
        Seq::empty()
    } else {
        expand_list(s.drop_last(), ctx).push(expand(s.last(), ctx))
    }
}

pub open spec fn expand_pairs(s: Seq<(TemplateModel, TemplateModel)>, ctx: Map<Seq<char>, Seq<char>>) -> Seq<
    (ValueModel, ValueModel),
>
    decreases s,
{
    if s.len() == 0 {
        Seq::empty()
    } else {
        merge_entry(expand_pairs(s.drop_last(), ctx), (expand(s.last().0, ctx), expand(s.last().1, ctx)))
    }
}

/// Each key stands at most once among the entries.
pub open spec fn unique_entry_keys(s: Seq<(ValueModel, ValueModel)>) -> bool {
    forall|i: int, j: int| 0 <= i < s.len() && 0 <= j < s.len() && i != j ==> s[i].0 != s[j].0
}

/// Adds an entry to a map's entries: where its key is present already the
/// new value replaces the old one in place, else the entry goes at the end.
pub open spec fn merge_entry(acc: Seq<(ValueModel, ValueModel)>, e: (ValueModel, ValueModel)) -> Seq<
    (ValueModel, ValueModel),
> {
    if exists|j: int| 0 <= j < acc.len() && #[trigger] acc[j].0 == e.0 {
        acc.update(choose|j: int| 0 <= j < acc.len() && #[trigger] acc[j].0 == e.0, e)
    } else {
        acc.push(e)
    }
}

/// The entries of an expanded map have unique keys: where two key templates
/// expand to the same key, the later entry's value is kept.
pub proof fn lemma_expand_pairs_unique(s: Seq<(TemplateModel, TemplateModel)>, ctx: Map<Seq<char>, Seq<char>>)
    ensures
        unique_entry_keys(expand_pairs(s, ctx)),
    decreases s.len(),
{
    if s.len() > 0 {
        lemma_expand_pairs_unique(s.drop_last(), ctx);
        let acc = expand_pairs(s.drop_last(), ctx);
        let e = (expand(s.last().0, ctx), expand(s.last().1, ctx));
        let r = merge_entry(acc, e);
        if exists|j: int| 0 <= j < acc.len() && #[trigger] acc[j].0 == e.0 {
            let j = choose|j: int| 0 <= j < acc.len() && #[trigger] acc[j].0 == e.0;
            assert forall|a: int, b: int| 0 <= a < r.len() && 0 <= b < r.len() && a != b implies r[a].0 != r[b].0 by {
                assert(r[a].0 == acc[a].0);
                assert(r[b].0 == acc[b].0);
            }
        } else {
            assert forall|a: int, b: int| 0 <= a < r.len() && 0 <= b < r.len() && a != b implies r[a].0 != r[b].0 by {
                if a < acc.len() && b < acc.len() {
                    assert(r[a] == acc[a] && r[b] == acc[b]);
                } else if a < acc.len() {
                    assert(r[a] == acc[a]);
                } else {
                    assert(r[b] == acc[b]);
                }
            }
        }
    }
}

/// What one referenced key adds to a routing key: the decimal byte length of
/// its value, a `:` and the value, or `-` where it is absent.
pub open spec fn key_part(ctx: Map<Seq<char>, Seq<char>>, k: Seq<char>) -> Seq<char> {
    if ctx.contains_key(k) {
        decimal(utf8_len(ctx[k])) + seq![':'] + ctx[k]
    } else {
        seq!['-']
    }
}

/// The routing key of `ctx` for the referenced keys `keys`, taken in order.
pub open spec fn routing_key(keys: Seq<Seq<char>>, ctx: Map<Seq<char>, Seq<char>>) -> Seq<char>
    decreases keys.len(),
{
    if keys.len() == 0 {
        Seq::empty()
    } else {
        routing_key(keys.drop_last(), ctx) + key_part(ctx, keys.last())
    }
}

pub open spec fn string_views(s: Seq<String>) -> Seq<Seq<char>> {
    s.map_values(|x: String| x@)
}

pub proof fn lemma_concat_contains<A>(a: Seq<A>, b: Seq<A>, x: A)
    ensures
        (a + b).contains(x) <==> (a.contains(x) || b.contains(x)),
{
    if a.contains(x) {
        let i = choose|i: int| 0 <= i < a.len() && a[i] == x;
        assert((a + b)[i] == x);
    }
    if b.contains(x) {
        let i = choose|i: int| 0 <= i < b.len() && b[i] == x;
        assert((a + b)[a.len() + i] == x);
    }
    if (a + b).contains(x) {
        let i = choose|i: int| 0 <= i < (a + b).len() && (a + b)[i] == x;
        if i < a.len() {
            assert(a[i] == x);
        } else {
            assert(b[i - a.len()] == x);
        }
    }
}

/// Adds `k` to `acc` unless it is there already.
fn push_unique(acc: &mut Vec<String>, k: &String)
    requires
        string_views(old(acc)@).no_duplicates(),
    ensures
        string_views(final(acc)@).no_duplicates(),
        forall|x: Seq<char>|
            string_views(final(acc)@).contains(x) <==> (string_views(old(acc)@).contains(x) || x
                == k@),
{
    let mut j: usize = 0;
    while j < acc.len()
        invariant
            j <= acc.len(),
            acc@ == old(acc)@,
            string_views(acc@).no_duplicates(),
            forall|i: int| 0 <= i < j ==> acc@[i]@ != k@,
        decreases acc.len() - j,
    {
        if acc[j] == *k {
            assert(string_views(acc@)[j as int] == k@);
            return;
        }
        j = j + 1;
    }
    let ghost before = acc@;
    acc.push(k.clone());
    assert(string_views(acc@) =~= string_views(before).push(k@));
    assert forall|x: Seq<char>|
        string_views(acc@).contains(x) <==> (string_views(before).contains(x) || x == k@) by {
        if string_views(acc@).contains(x) {
            let i = choose|i: int| 0 <= i < acc.len() && string_views(acc@)[i] == x;
            if i < before.len() {
                assert(string_views(before)[i] == x);
            }
        }
        if string_views(before).contains(x) {
            let i = choose|i: int| 0 <= i < before.len() && string_views(before)[i] == x;
            assert(string_views(acc@)[i] == x);
        }
        if x == k@ {
            assert(string_views(acc@)[before.len() as int] == x);
        }
    }
}

impl ValueTemplate {
    /// Adds to `acc` each context key that this template refers to and that
    /// `acc` does not hold yet.
    pub fn keys(&self, acc: &mut Vec<String>)
        requires
            string_views(old(acc)@).no_duplicates(),
        ensures
            string_views(final(acc)@).no_duplicates(),
            forall|x: Seq<char>|
                #![trigger string_views(final(acc)@).contains(x)]
                #![trigger string_views(old(acc)@).contains(x)]
                #![trigger mdc_keys(self@).contains(x)]
                string_views(final(acc)@).contains(x) <==> (string_views(old(acc)@).contains(x)
                    || mdc_keys(self@).contains(x)),
        decreases self,
    {
        match self {
            ValueTemplate::Mapping(m) => {
                let ghost ms = template_pair_models(m@);
                proof {
                    lemma_template_pair_models(m@);
                    assert forall|j: int| 0 <= j < m.len() implies decreases_to!(self => #[trigger] m@[j]) by {
                        assert(decreases_to!(m@ => m@[j]));
                    }
                }
                let mut i: usize = 0;
                while i < m.len()
                    invariant
                        i <= m.len(),
                        *self == ValueTemplate::Mapping(*m),
                        forall|j: int| 0 <= j < m.len() ==> decreases_to!(self => #[trigger] m@[j]),
                        ms == template_pair_models(m@),
                        ms.len() == m.len(),
                        forall|j: int| 0 <= j < m.len() ==> #[trigger] ms[j] == (m@[j].0@, m@[j].1@),
                        string_views(acc@).no_duplicates(),
                        forall|x: Seq<char>|
                            string_views(acc@).contains(x) <==> (string_views(old(acc)@).contains(x)
                                || pair_keys(ms.take(i as int)).contains(x)),
                    decreases m.len() - i,
                {
                    proof {
                        assert(ms.take(i + 1).drop_last() =~= ms.take(i as int));
                        assert(ms.take(i + 1).last() == ms[i as int]);
                    }
                    proof {
                        assert(decreases_to!(*m => m@));
                        assert(decreases_to!(m@ => m@[i as int]));
                        assert(decreases_to!(m@[i as int] => m@[i as int].0));
                    }
                    m[i].0.keys(acc);
                    m[i].1.keys(acc);
                    proof {
                        let a = pair_keys(ms.take(i as int));
                        let b = mdc_keys(m@[i as int].0@);
                        let c = mdc_keys(m@[i as int].1@);
                        assert forall|x: Seq<char>|
                            string_views(acc@).contains(x) <==> (string_views(old(acc)@).contains(x)
                                || pair_keys(ms.take(i + 1)).contains(x)) by {
                            lemma_concat_contains(a, b, x);
                            lemma_concat_contains(a + b, c, x);
                        }
                    }
                    i = i + 1;
                }
                proof {
                    assert(ms.take(i as int) =~= ms);
                    assert(mdc_keys(self@) == pair_keys(ms));
                    assert forall|x: Seq<char>|
                        string_views(acc@).contains(x) <==> (string_views(old(acc)@).contains(x)
                            || mdc_keys(self@).contains(x)) by {
                        assert(pair_keys(ms.take(i as int)) == pair_keys(ms));
                    }
                }
            },
            ValueTemplate::Newtype(b) => {
                assert(mdc_keys(self@) == mdc_keys(b@));
                b.keys(acc);
            },
            ValueTemplate::Optional(o) => match o {
                Some(b) => {
                    assert(mdc_keys(self@) == mdc_keys(b@));
                    b.keys(acc);
                },
                None => {
                    assert(mdc_keys(self@) =~= Seq::<Seq<char>>::empty());
                },
            },
            ValueTemplate::Sequence(vs) => {
                let ghost ms = template_models(vs@);
                proof {
                    lemma_template_models(vs@);
                    assert forall|j: int| 0 <= j < vs.len() implies decreases_to!(self => #[trigger] vs@[j]) by {
                        assert(decreases_to!(vs@ => vs@[j]));
                    }
                }
                let mut i: usize = 0;
                while i < vs.len()
                    invariant
                        i <= vs.len(),
                        *self == ValueTemplate::Sequence(*vs),
                        forall|j: int| 0 <= j < vs.len() ==> decreases_to!(self => #[trigger] vs@[j]),
                        ms == template_models(vs@),
                        ms.len() == vs.len(),
                        forall|j: int| 0 <= j < vs.len() ==> #[trigger] ms[j] == vs@[j]@,
                        string_views(acc@).no_duplicates(),
                        forall|x: Seq<char>|
                            string_views(acc@).contains(x) <==> (string_views(old(acc)@).contains(x)
                                || list_keys(ms.take(i as int)).contains(x)),
                    decreases vs.len() - i,
                {
                    proof {
                        assert(ms.take(i + 1).drop_last() =~= ms.take(i as int));
                        assert(ms.take(i + 1).last() == ms[i as int]);
                    }
                    proof {
                        assert(decreases_to!(*vs => vs@));
                        assert(decreases_to!(vs@ => vs@[i as int]));
                    }
                    vs[i].keys(acc);
                    proof {
                        let a = list_keys(ms.take(i as int));
                        let b = mdc_keys(vs@[i as int]@);
                        assert forall|x: Seq<char>|
                            string_views(acc@).contains(x) <==> (string_views(old(acc)@).contains(x)
                                || list_keys(ms.take(i + 1)).contains(x)) by {
                            lemma_concat_contains(a, b, x);
                        }
                    }
                    i = i + 1;
                }
                proof {
                    assert(ms.take(i as int) =~= ms);
                    assert(mdc_keys(self@) == list_keys(ms));
                }
            },
            ValueTemplate::Str(cs) => {
                let ghost vs = chunk_views(cs@);
                let mut i: usize = 0;
                while i < cs.len()
                    invariant
                        i <= cs.len(),
                        *self == ValueTemplate::Str(*cs),
                        vs == chunk_views(cs@),
                        string_views(acc@).no_duplicates(),
                        forall|x: Seq<char>|
                            string_views(acc@).contains(x) <==> (string_views(old(acc)@).contains(x)
                                || chunk_keys(vs.take(i as int)).contains(x)),
                    decreases cs.len() - i,
                {
                    proof {
                        assert(vs.take(i + 1).drop_last() =~= vs.take(i as int));
                        assert(vs.take(i + 1).last() == cs@[i as int]@);
                    }
                    match &cs[i] {
                        Chunk::Mdc(k) => {
                            push_unique(acc, k);
                            proof {
                                let a = chunk_keys(vs.take(i as int));
                                assert forall|x: Seq<char>|
                                    string_views(acc@).contains(x) <==> (string_views(old(acc)@).contains(x)
                                        || chunk_keys(vs.take(i + 1)).contains(x)) by {
                                    assert(vs.take(i + 1).last() == ChunkView::Mdc(k@));
                                    assert(chunk_keys(vs.take(i + 1)) == a.push(k@));
                                    lemma_concat_contains(a, seq![k@], x);
                                    assert(a.push(k@) =~= a + seq![k@]);
                                    assert(seq![k@].contains(x) <==> x == k@) by {
                                        if x == k@ {
                                            assert(seq![k@][0] == x);
                                        }
                                    }
                                }
                            }
                        },
                        Chunk::Text(_) => {},
                    }
                    i = i + 1;
                }
                proof {
                    assert(vs.take(i as int) =~= vs);
                    assert(mdc_keys(self@) == chunk_keys(vs));
                }
            },
            _ => {
                assert(mdc_keys(self@) =~= Seq::<Seq<char>>::empty());
            },
        }
    }
}

fn expand_str(cs: &Vec<Chunk>, ctx: &Context) -> (r: String)
    requires
        ctx.wf(),
    ensures
        r@ == expand_chunks(chunk_views(cs@), ctx@),
{
    let ghost vs = chunk_views(cs@);
    let mut s = String::new();
    let mut i: usize = 0;
    while i < cs.len()
        invariant
            i <= cs.len(),
            ctx.wf(),
            vs == chunk_views(cs@),
            s@ == expand_chunks(vs.take(i as int), ctx@),
        decreases cs.len() - i,
    {
        proof {
            assert(vs.take(i + 1).drop_last() =~= vs.take(i as int));
            assert(vs.take(i + 1).last() == cs@[i as int]@);
        }
        match &cs[i] {
            Chunk::Text(t) => {
                s.append(t.as_str());
            },
            Chunk::Mdc(k) => match ctx.get(k) {
                Some(v) => {
                    s.append(v.as_str());
                },
                None => {
                    s.append("<missing>");
                },
            },
        }
        i = i + 1;
    }
    proof {
        assert(vs.take(i as int) =~= vs);
    }
    s
}

impl ValueTemplate {
    /// The value that this template stands for in `ctx`.
    pub fn expand(&self, ctx: &Context) -> (r: Value)
        requires
            ctx.wf(),
        ensures
            r@ == expand(self@, ctx@),
        decreases self,
    {
        match self {
            ValueTemplate::Mapping(m) => {
                let ghost ms = template_pair_models(m@);
                proof {
                    lemma_template_pair_models(m@);
                    assert forall|j: int| 0 <= j < m.len() implies decreases_to!(self => #[trigger] m@[j]) by {
                        assert(decreases_to!(m@ => m@[j]));
                    }
                }
                let mut out: Vec<(Value, Value)> = Vec::new();
                let mut i: usize = 0;
                while i < m.len()
                    invariant
                        i <= m.len(),
                        ctx.wf(),
                        *self == ValueTemplate::Mapping(*m),
                        forall|j: int| 0 <= j < m.len() ==> decreases_to!(self => #[trigger] m@[j]),
                        ms == template_pair_models(m@),
                        ms.len() == m.len(),
                        forall|j: int| 0 <= j < m.len() ==> #[trigger] ms[j] == (m@[j].0@, m@[j].1@),
                        value_pair_models(out@) == expand_pairs(ms.take(i as int), ctx@),
                    decreases m.len() - i,
                {
                    proof {
                        assert(ms.take(i + 1).drop_last() =~= ms.take(i as int));
                        assert(ms.take(i + 1).last() == ms[i as int]);
                    }
                    let k = m[i].0.expand(ctx);
                    let v = m[i].1.expand(ctx);
                    let ghost before = out@;
                    let ghost acc = value_pair_models(before);
                    let ghost e = (k@, v@);
                    proof {
                        lemma_expand_pairs_unique(ms.take(i as int), ctx@);
                        lemma_value_pair_models(before);
                    }
                    let mut j: usize = 0;
                    while j < out.len() && !out[j].0.equals(&k)
                        invariant
                            out@ == before,
                            j <= out.len(),
                            acc == value_pair_models(before),
                            acc.len() == before.len(),
                            forall|a: int| 0 <= a < before.len() ==> #[trigger] acc[a] == (before[a].0@, before[a].1@),
                            forall|a: int| 0 <= a < j ==> acc[a].0 != k@,
                        decreases out.len() - j,
                    {
                        j = j + 1;
                    }
                    if j < out.len() {
                        out.set(j, (k, v));
                        proof {
                            assert(acc[j as int].0 == e.0);
                            let c = choose|c: int| 0 <= c < acc.len() && #[trigger] acc[c].0 == e.0;
                            assert(c == j);
                            lemma_value_pair_models(out@);
                            assert(value_pair_models(out@) =~= acc.update(j as int, e));
                        }
                    } else {
                        out.push((k, v));
                        proof {
                            assert(!(exists|c: int| 0 <= c < acc.len() && #[trigger] acc[c].0 == e.0));
                            assert(out@.drop_last() =~= before);
                        }
                    }
                    i = i + 1;
                }
                proof {
                    assert(ms.take(i as int) =~= ms);
                }
                Value::Mapping(out)
            },
            ValueTemplate::Newtype(b) => Value::Newtype(Box::new(b.expand(ctx))),
            ValueTemplate::Optional(o) => match o {
                Some(b) => Value::Optional(Some(Box::new(b.expand(ctx)))),
                None => Value::Optional(None),
            },
            ValueTemplate::Sequence(vs) => {
                let ghost ms = template_models(vs@);
                proof {
                    lemma_template_models(vs@);
                    assert forall|j: int| 0 <= j < vs.len() implies decreases_to!(self => #[trigger] vs@[j]) by {
                        assert(decreases_to!(vs@ => vs@[j]));
                    }
                }
                let mut out: Vec<Value> = Vec::new();
                let mut i: usize = 0;
                while i < vs.len()
                    invariant
                        i <= vs.len(),
                        ctx.wf(),
                        *self == ValueTemplate::Sequence(*vs),
                        forall|j: int| 0 <= j < vs.len() ==> decreases_to!(self => #[trigger] vs@[j]),
                        ms == template_models(vs@),
                        ms.len() == vs.len(),
                        forall|j: int| 0 <= j < vs.len() ==> #[trigger] ms[j] == vs@[j]@,
                        value_models(out@) == expand_list(ms.take(i as int), ctx@),
                    decreases vs.len() - i,
                {
                    proof {
                        assert(ms.take(i + 1).drop_last() =~= ms.take(i as int));
                        assert(ms.take(i + 1).last() == ms[i as int]);
                    }
                    let v = vs[i].expand(ctx);
                    let ghost before = out@;
                    out.push(v);
                    proof {
                        assert(out@.drop_last() =~= before);
                    }
                    i = i + 1;
                }
                proof {
                    assert(ms.take(i as int) =~= ms);
                }
                Value::Sequence(out)
            },
            ValueTemplate::Str(cs) => Value::Str(expand_str(cs, ctx)),
            ValueTemplate::Bool(b) => Value::Bool(*b),
            ValueTemplate::Bytes(b) => Value::Bytes(b.clone()),
            ValueTemplate::Char(c) => Value::Char(*c),
            ValueTemplate::Float32Bits(f) => Value::Float32Bits(*f),
            ValueTemplate::Float64Bits(f) => Value::Float64Bits(*f),
            ValueTemplate::I8(i) => Value::I8(*i),
            ValueTemplate::I16(i) => Value::I16(*i),
            ValueTemplate::I32(i) => Value::I32(*i),
            ValueTemplate::I64(i) => Value::I64(*i),
            ValueTemplate::Isize(i) => Value::Isize(*i),
            ValueTemplate::U8(u) => Value::U8(*u),
            ValueTemplate::U16(u) => Value::U16(*u),
            ValueTemplate::U32(u) => Value::U32(*u),
            ValueTemplate::U64(u) => Value::U64(*u),
            ValueTemplate::Usize(u) => Value::Usize(*u),
            ValueTemplate::Unit => Value::Unit,
            ValueTemplate::UnitStruct(n) => Value::UnitStruct(*n),
        }
    }
}

fn digit_str(d: usize) -> (r: &'static str)
    requires
        d < 10,
    ensures
        r@ == seq![digit_char(d as nat)],
{
    let r = if d == 0 {
        proof { reveal_strlit("0"); }
        "0"
    } else if d == 1 {
        proof { reveal_strlit("1"); }
        "1"
    } else if d == 2 {
        proof { reveal_strlit("2"); }
        "2"
    } else if d == 3 {
        proof { reveal_strlit("3"); }
        "3"
    } else if d == 4 {
        proof { reveal_strlit("4"); }
        "4"
    } else if d == 5 {
        proof { reveal_strlit("5"); }
        "5"
    } else if d == 6 {
        proof { reveal_strlit("6"); }
        "6"
    } else if d == 7 {
        proof { reveal_strlit("7"); }
        "7"
    } else if d == 8 {
        proof { reveal_strlit("8"); }
        "8"
    } else {
        proof { reveal_strlit("9"); }
        "9"
    };
    assert(r@ =~= seq![digit_char(d as nat)]);
    r
}

/// The decimal notation of `n`.
pub fn decimal_string(n: usize) -> (r: String)
    ensures
        r@ == decimal(n as nat),
    decreases n,
{
    if n < 10 {
        digit_str(n).to_owned()
    } else {
        let mut s = decimal_string(n / 10);
        s.append(digit_str(n % 10));
        s
    }
}

/// A compiled configuration template, with the context keys it refers to
/// in a fixed order.
#[derive(Debug)]
pub struct Template {
    value: ValueTemplate,
    keys: Vec<String>,
}

impl Template {
    /// The compiled tree.
    pub closed spec fn tree(&self) -> TemplateModel {
        self.value@
    }

    /// The referenced keys, in the order in which routing keys take them.
    pub closed spec fn key_order(&self) -> Seq<Seq<char>> {
        string_views(self.keys@)
    }

    /// Each referenced key stands once in the key order, and nothing else does.
    pub open spec fn wf(&self) -> bool {
        &&& self.key_order().no_duplicates()
        &&& forall|x: Seq<char>|
            #[trigger] self.key_order().contains(x) <==> referenced_keys(self.tree()).contains(x)
    }

    /// Compiles `pattern` and collects the context keys it refers to.
    pub fn new(pattern: &Value) -> (r: Result<Template, TemplateError>)
        ensures
            match compile(pattern@) {
                Ok(t) => r is Ok && r->Ok_0.tree() == t && r->Ok_0.wf(),
                Err(e) => r is Err && r->Err_0@ == e,
            },
    {
        let value = match ValueTemplate::new(pattern) {
            Ok(v) => v,
            Err(e) => {
                return Err(e);
            },
        };
        let mut keys: Vec<String> = Vec::new();
        proof {
            assert(string_views(keys@) =~= Seq::<Seq<char>>::empty());
        }
        value.keys(&mut keys);
        Ok(Template { value, keys })
    }

    /// The context keys that this template refers to, in key order.
    pub fn referenced(&self) -> (r: &Vec<String>)
        ensures
            string_views(r@) == self.key_order(),
    {
        &self.keys
    }

    /// The routing key of `ctx`: for each referenced key in key order, the
    /// decimal byte length of its value, a `:` and the value, or `-` where it
    /// is absent.
    pub fn key(&self, ctx: &Context) -> (r: String)
        requires
            ctx.wf(),
        ensures
            r@ == routing_key(self.key_order(), ctx@),
    {
        let ghost ko = self.key_order();
        let mut s = String::new();
        let mut i: usize = 0;
        while i < self.keys.len()
            invariant
                i <= self.keys.len(),
                ctx.wf(),
                ko == string_views(self.keys@),
                s@ == routing_key(ko.take(i as int), ctx@),
            decreases self.keys.len() - i,
        {
            proof {
                assert(ko.take(i + 1).drop_last() =~= ko.take(i as int));
                assert(ko.take(i + 1).last() == self.keys@[i as int]@);
            }
            match ctx.get(&self.keys[i]) {
                Some(v) => {
                    let n = v.as_str().as_bytes().len();
                    let d = decimal_string(n);
                    s.append(d.as_str());
                    proof {
                        reveal_strlit(":");
                    }
                    s.append(":");
                    s.append(v.as_str());
                    proof {
                        assert(":"@ =~= seq![':']);
                        assert(s@ =~= routing_key(ko.take(i as int), ctx@) + (decimal(utf8_len(v@))
                            + seq![':'] + v@));
                    }
                },
                None => {
                    proof {
                        reveal_strlit("-");
                    }
                    s.append("-");
                    proof {
                        assert("-"@ =~= seq!['-']);
                    }
                },
            }
            i = i + 1;
        }
        proof {
            assert(ko.take(i as int) =~= ko);
        }
        s
    }

    /// The configuration value that this template stands for in `ctx`. Map
    /// keys that expand to the same value merge, the later entry's value
    /// replacing the earlier one in place.
    pub fn expand(&self, ctx: &Context) -> (r: Value)
        requires
            ctx.wf(),
        ensures
            r@ == expand(self.tree(), ctx@),
    {
        self.value.expand(ctx)
    }
}

pub proof fn lemma_expand_chunks_reads_only(
    cs: Seq<ChunkView>,
    c1: Map<Seq<char>, Seq<char>>,
    c2: Map<Seq<char>, Seq<char>>,
)
    requires
        forall|k: Seq<char>| #[trigger] chunk_keys(cs).contains(k) ==> agree_at(c1, c2, k),
    ensures
        expand_chunks(cs, c1) == expand_chunks(cs, c2),
    decreases cs.len(),
{
    if cs.len() > 0 {
        let d = cs.drop_last();
        assert forall|k: Seq<char>| #[trigger] chunk_keys(d).contains(k) implies agree_at(c1, c2, k) by {
            let i = choose|i: int| 0 <= i < chunk_keys(d).len() && chunk_keys(d)[i] == k;
            assert(chunk_keys(cs)[i] == k);
            assert(chunk_keys(cs).contains(k));
        }
        lemma_expand_chunks_reads_only(d, c1, c2);
        if let ChunkView::Mdc(k) = cs.last() {
            assert(chunk_keys(cs)[chunk_keys(cs).len() - 1] == k);
            assert(chunk_keys(cs).contains(k));
        }
    }
}

/// Expansion reads the context only at the keys the template refers to:
/// two contexts that agree there give the same value.
pub proof fn lemma_expand_reads_only(t: TemplateModel, c1: Map<Seq<char>, Seq<char>>, c2: Map<Seq<char>, Seq<char>>)
    requires
        forall|k: Seq<char>| #[trigger] mdc_keys(t).contains(k) ==> agree_at(c1, c2, k),
    ensures
        expand(t, c1) == expand(t, c2),
    decreases t,
{
    match t {
        Tree::Mapping(m) => {
            assert forall|k: Seq<char>| #[trigger] pair_keys(m).contains(k) implies agree_at(c1, c2, k) by {
                assert(mdc_keys(t).contains(k));
            }
            lemma_expand_pairs_reads_only(m, c1, c2);
        },
        Tree::Newtype(b) => {
            assert forall|k: Seq<char>| #[trigger] mdc_keys(*b).contains(k) implies agree_at(c1, c2, k) by {
                assert(mdc_keys(t).contains(k));
            }
            lemma_expand_reads_only(*b, c1, c2);
        },
        Tree::Optional(o) => {
            if let Some(b) = o {
                assert forall|k: Seq<char>| #[trigger] mdc_keys(*b).contains(k) implies agree_at(c1, c2, k) by {
                    assert(mdc_keys(t).contains(k));
                }
                lemma_expand_reads_only(*b, c1, c2);
            }
        },
        Tree::Sequence(l) => {
            assert forall|k: Seq<char>| #[trigger] list_keys(l).contains(k) implies agree_at(c1, c2, k) by {
                assert(mdc_keys(t).contains(k));
            }
            lemma_expand_list_reads_only(l, c1, c2);
        },
        Tree::Leaf(cs) => {
            assert forall|k: Seq<char>| #[trigger] chunk_keys(cs).contains(k) implies agree_at(c1, c2, k) by {
                assert(mdc_keys(t).contains(k));
            }
            lemma_expand_chunks_reads_only(cs, c1, c2);
        },
        _ => {},
    }
}

pub proof fn lemma_expand_list_reads_only(
    s: Seq<TemplateModel>,
    c1: Map<Seq<char>, Seq<char>>,
    c2: Map<Seq<char>, Seq<char>>,
)
    requires
        forall|k: Seq<char>| #[trigger] list_keys(s).contains(k) ==> agree_at(c1, c2, k),
    ensures
        expand_list(s, c1) == expand_list(s, c2),
    decreases s,
{
    if s.len() > 0 {
        let d = s.drop_last();
        assert(list_keys(s) == list_keys(d) + mdc_keys(s.last()));
        assert forall|k: Seq<char>| #[trigger] list_keys(d).contains(k) implies agree_at(c1, c2, k) by {
            lemma_concat_contains(list_keys(d), mdc_keys(s.last()), k);
            assert(list_keys(s).contains(k));
        }
        assert forall|k: Seq<char>| #[trigger] mdc_keys(s.last()).contains(k) implies agree_at(c1, c2, k) by {
            lemma_concat_contains(list_keys(d), mdc_keys(s.last()), k);
            assert(list_keys(s).contains(k));
        }
        lemma_expand_list_reads_only(d, c1, c2);
        lemma_expand_reads_only(s.last(), c1, c2);
    }
}

pub proof fn lemma_expand_pairs_reads_only(
    s: Seq<(TemplateModel, TemplateModel)>,
    c1: Map<Seq<char>, Seq<char>>,
    c2: Map<Seq<char>, Seq<char>>,
)
    requires
        forall|k: Seq<char>| #[trigger] pair_keys(s).contains(k) ==> agree_at(c1, c2, k),
    ensures
        expand_pairs(s, c1) == expand_pairs(s, c2),
    decreases s,
{
    if s.len() > 0 {
        let d = s.drop_last();
        let a = pair_keys(d);
        let b = mdc_keys(s.last().0);
        let c = mdc_keys(s.last().1);
        assert(pair_keys(s) == a + b + c);
        assert forall|k: Seq<char>| #[trigger] a.contains(k) implies agree_at(c1, c2, k) by {
            lemma_concat_contains(a, b, k);
            lemma_concat_contains(a + b, c, k);
            assert(pair_keys(s).contains(k));
        }
        assert forall|k: Seq<char>| #[trigger] b.contains(k) implies agree_at(c1, c2, k) by {
            lemma_concat_contains(a, b, k);
            lemma_concat_contains(a + b, c, k);
            assert(pair_keys(s).contains(k));
        }
        assert forall|k: Seq<char>| #[trigger] c.contains(k) implies agree_at(c1, c2, k) by {
            lemma_concat_contains(a, b, k);
            lemma_concat_contains(a + b, c, k);
            assert(pair_keys(s).contains(k));
        }
        lemma_expand_pairs_reads_only(d, c1, c2);
        lemma_expand_reads_only(s.last().0, c1, c2);
        lemma_expand_reads_only(s.last().1, c1, c2);
    }
}

/// Removing a key from the context leaves the expansion of any part of a
/// template that does not refer to that key as it was.
pub proof fn lemma_expand_after_removal(t: TemplateModel, ctx: Map<Seq<char>, Seq<char>>, k: Seq<char>)
    requires
        !mdc_keys(t).contains(k),
    ensures
        expand(t, ctx.remove(k)) == expand(t, ctx),
{
    assert forall|x: Seq<char>| #[trigger] mdc_keys(t).contains(x) implies agree_at(ctx.remove(k), ctx, x) by {
        assert(x != k);
    }
    lemma_expand_reads_only(t, ctx.remove(k), ctx);
}

/// Once `k` is removed from the context, a string leaf that is a placeholder
/// for `k` expands to the text for an absent key, and a leaf that mixes it
/// with text keeps the text around it.
pub proof fn lemma_removed_key_missing(
    ctx: Map<Seq<char>, Seq<char>>,
    k: Seq<char>,
    before: Seq<char>,
    after: Seq<char>,
)
    ensures
        expand(Tree::Leaf(seq![ChunkView::Mdc(k)]), ctx.remove(k)) == Tree::<Seq<char>>::Leaf(missing()),
        expand(
            Tree::Leaf(seq![ChunkView::Text(before), ChunkView::Mdc(k), ChunkView::Text(after)]),
            ctx.remove(k),
        ) == Tree::<Seq<char>>::Leaf(before + missing() + after),
{
    let c = ctx.remove(k);
    assert(!c.contains_key(k));
    assert(lookup(c, k) == missing());
    let empty = Seq::<ChunkView>::empty();
    assert(expand_chunks(empty, c) == Seq::<char>::empty());
    let one = seq![ChunkView::Mdc(k)];
    assert(one.drop_last() =~= empty);
    assert(one.last() == ChunkView::Mdc(k));
    assert(expand_chunks(one, c) == expand_chunks(empty, c) + lookup(c, k));
    assert(expand_chunks(one, c) =~= missing());
    let t1 = seq![ChunkView::Text(before)];
    assert(t1.drop_last() =~= empty);
    assert(expand_chunks(t1, c) == expand_chunks(empty, c) + before);
    assert(expand_chunks(t1, c) =~= before);
    let t2 = seq![ChunkView::Text(before), ChunkView::Mdc(k)];
    assert(t2.drop_last() =~= t1);
    assert(expand_chunks(t2, c) == expand_chunks(t1, c) + lookup(c, k));
    let three = seq![ChunkView::Text(before), ChunkView::Mdc(k), ChunkView::Text(after)];
    assert(three.drop_last() =~= t2);
    assert(expand_chunks(three, c) == expand_chunks(t2, c) + after);
    assert(expand_chunks(three, c) =~= before + missing() + after);
}

/// The routing key reads the context only at the keys it takes.
pub proof fn lemma_routing_key_reads_only(keys: Seq<Seq<char>>, c1: Map<Seq<char>, Seq<char>>, c2: Map<Seq<char>, Seq<char>>)
    requires
        forall|k: Seq<char>| #[trigger] keys.contains(k) ==> key_part(c1, k) == key_part(c2, k),
    ensures
        routing_key(keys, c1) == routing_key(keys, c2),
    decreases keys.len(),
{
    if keys.len() > 0 {
        let d = keys.drop_last();
        assert forall|k: Seq<char>| #[trigger] d.contains(k) implies key_part(c1, k) == key_part(c2, k) by {
            let i = choose|i: int| 0 <= i < d.len() && d[i] == k;
            assert(keys[i] == k);
            assert(keys.contains(k));
        }
        lemma_routing_key_reads_only(d, c1, c2);
        assert(keys[keys.len() - 1] == keys.last());
        assert(keys.contains(keys.last()));
    }
}

/// A routing key read from the front: the part of the first key, then the rest.
pub proof fn lemma_routing_key_front(keys: Seq<Seq<char>>, ctx: Map<Seq<char>, Seq<char>>)
    requires
        keys.len() > 0,
    ensures
        routing_key(keys, ctx) == key_part(ctx, keys[0]) + routing_key(keys.drop_first(), ctx),
    decreases keys.len(),
{
    if keys.len() == 1 {
        let empty = Seq::<Seq<char>>::empty();
        assert(keys.drop_last() =~= empty);
        assert(keys.drop_first() =~= empty);
        assert(routing_key(empty, ctx) == Seq::<char>::empty());
        assert(keys.last() == keys[0]);
        assert(routing_key(keys, ctx) == routing_key(empty, ctx) + key_part(ctx, keys[0]));
        assert(Seq::<char>::empty() + key_part(ctx, keys[0]) =~= key_part(ctx, keys[0]));
        assert(key_part(ctx, keys[0]) + Seq::<char>::empty() =~= key_part(ctx, keys[0]));
    } else {
        let d = keys.drop_last();
        lemma_routing_key_front(d, ctx);
        assert(keys.drop_first().drop_last() =~= d.drop_first());
        assert(keys.drop_first().last() == keys.last());
        assert(d[0] == keys[0]);
        assert(routing_key(keys, ctx) =~= key_part(ctx, keys[0]) + routing_key(keys.drop_first(), ctx));
    }
}

/// Whether two contexts agree at `k`: both lack it, or both hold the same value.
pub open spec fn agree_at(c1: Map<Seq<char>, Seq<char>>, c2: Map<Seq<char>, Seq<char>>, k: Seq<char>) -> bool {
    &&& c1.contains_key(k) == c2.contains_key(k)
    &&& c1.contains_key(k) ==> c1[k] == c2[k]
}

/// The part of one key can be read off the front of a routing key without
/// knowing what follows it: the length ends at the first `:`, and the length
/// says where the value ends.
pub proof fn lemma_key_part_prefix_free(
    c1: Map<Seq<char>, Seq<char>>,
    c2: Map<Seq<char>, Seq<char>>,
    k: Seq<char>,
    r1: Seq<char>,
    r2: Seq<char>,
)
    requires
        key_part(c1, k) + r1 == key_part(c2, k) + r2,
    ensures
        agree_at(c1, c2, k),
        r1 == r2,
{
    let a = key_part(c1, k);
    let b = key_part(c2, k);
    let x = a + r1;
    assert(x[0] == a[0]);
    assert(x[0] == b[0]);
    if c1.contains_key(k) {
        lemma_decimal(utf8_len(c1[k]));
        assert(a[0] == decimal(utf8_len(c1[k]))[0]);
    }
    if c2.contains_key(k) {
        lemma_decimal(utf8_len(c2[k]));
        assert(b[0] == decimal(utf8_len(c2[k]))[0]);
    }
    if !c1.contains_key(k) && !c2.contains_key(k) {
        assert(r1 =~= x.skip(1));
        assert(r2 =~= x.skip(1));
    } else if !c1.contains_key(k) {
        assert(is_digit(b[0]));
        assert(!is_digit('-'));
    } else if !c2.contains_key(k) {
        assert(is_digit(a[0]));
        assert(!is_digit('-'));
    } else {
        let v1 = c1[k];
        let v2 = c2[k];
        let d1 = decimal(utf8_len(v1));
        let d2 = decimal(utf8_len(v2));
        let l1 = d1.len() as int;
        let l2 = d2.len() as int;
        assert(!is_digit(':'));
        if l1 < l2 {
            assert(x[l1] == a[l1]);
            assert(a[l1] == ':');
            assert(x[l1] == b[l1]);
            assert(b[l1] == d2[l1]);
            assert(false);
        }
        if l2 < l1 {
            assert(x[l2] == b[l2]);
            assert(b[l2] == ':');
            assert(x[l2] == a[l2]);
            assert(a[l2] == d1[l2]);
            assert(false);
        }
        assert forall|i: int| 0 <= i < l1 implies d1[i] == d2[i] by {
            assert(x[i] == a[i]);
            assert(x[i] == b[i]);
            assert(a[i] == d1[i]);
            assert(b[i] == d2[i]);
        }
        assert(d1 =~= d2);
        lemma_decimal_injective(utf8_len(v1), utf8_len(v2));
        let y = x.skip(l1 + 1);
        assert(y =~= v1 + r1);
        assert(y =~= v2 + r2);
        lemma_utf8_len_positive(v1);
        lemma_utf8_len_positive(v2);
        if v1.len() < v2.len() {
            let w = v2.skip(v1.len() as int);
            assert forall|i: int| 0 <= i < v1.len() implies v1[i] == v2[i] by {
                assert(y[i] == v1[i]);
                assert(y[i] == v2[i]);
            }
            assert(v2 =~= v1 + w);
            lemma_utf8_len_concat(v1, w);
            lemma_utf8_len_positive(w);
            assert(false);
        }
        if v2.len() < v1.len() {
            let w = v1.skip(v2.len() as int);
            assert forall|i: int| 0 <= i < v2.len() implies v1[i] == v2[i] by {
                assert(y[i] == v1[i]);
                assert(y[i] == v2[i]);
            }
            assert(v1 =~= v2 + w);
            lemma_utf8_len_concat(v2, w);
            lemma_utf8_len_positive(w);
            assert(false);
        }
        assert(v1 =~= y.take(v1.len() as int));
        assert(v2 =~= y.take(v1.len() as int));
        assert(r1 =~= y.skip(v1.len() as int));
        assert(r2 =~= y.skip(v1.len() as int));
    }
}

/// Equal routing keys come only from contexts that agree at every key taken.
pub proof fn lemma_routing_key_injective(
    keys: Seq<Seq<char>>,
    c1: Map<Seq<char>, Seq<char>>,
    c2: Map<Seq<char>, Seq<char>>,
)
    requires
        routing_key(keys, c1) == routing_key(keys, c2),
    ensures
        forall|k: Seq<char>| #[trigger] keys.contains(k) ==> agree_at(c1, c2, k),
    decreases keys.len(),
{
    if keys.len() > 0 {
        let k0 = keys[0];
        let rest = keys.drop_first();
        lemma_routing_key_front(keys, c1);
        lemma_routing_key_front(keys, c2);
        assert(keys.contains(k0));
        lemma_key_part_prefix_free(c1, c2, k0, routing_key(rest, c1), routing_key(rest, c2));
        assert forall|k: Seq<char>| #[trigger] rest.contains(k) implies keys.contains(k) by {
            let i = choose|i: int| 0 <= i < rest.len() && rest[i] == k;
            assert(keys[i + 1] == k);
        }
        lemma_routing_key_injective(rest, c1, c2);
        assert forall|k: Seq<char>| #[trigger] keys.contains(k) implies agree_at(c1, c2, k) by {
            let i = choose|i: int| 0 <= i < keys.len() && keys[i] == k;
            if i > 0 {
                assert(rest[i - 1] == k);
                assert(rest.contains(k));
            }
        }
    }
}

/// Routing keys tell contexts apart: two contexts get the same routing key
/// exactly when they agree at every referenced key.
pub proof fn lemma_routing_key_distinguishes(t: Template, c1: Map<Seq<char>, Seq<char>>, c2: Map<Seq<char>, Seq<char>>)
    requires
        t.wf(),
    ensures
        routing_key(t.key_order(), c1) == routing_key(t.key_order(), c2) <==> forall|k: Seq<char>|
            #[trigger] referenced_keys(t.tree()).contains(k) ==> agree_at(c1, c2, k),
{
    let ko = t.key_order();
    assert forall|k: Seq<char>| #[trigger] ko.contains(k) implies referenced_keys(t.tree()).contains(k) by {}
    if routing_key(ko, c1) == routing_key(ko, c2) {
        lemma_routing_key_injective(ko, c1, c2);
        assert forall|k: Seq<char>| #[trigger] referenced_keys(t.tree()).contains(k) implies agree_at(c1, c2, k) by {
            assert(ko.contains(k));
        }
    }
    if forall|k: Seq<char>| #[trigger] referenced_keys(t.tree()).contains(k) ==> agree_at(c1, c2, k) {
        assert forall|k: Seq<char>| #[trigger] ko.contains(k) implies key_part(c1, k) == key_part(c2, k) by {
            assert(referenced_keys(t.tree()).contains(k));
            assert(agree_at(c1, c2, k));
        }
        lemma_routing_key_reads_only(ko, c1, c2);
    }
}

} // verus!
