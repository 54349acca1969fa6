//! Bindings to the `sourcemap` crate: its types, and one trusted wrapper per function used.
//!
//! A token is described by what its getters return: destination line and column, source line
//! and column, source name, symbol name, and whether it is a range token.
use crate::edit::Mapping;
use vstd::prelude::*;

verus! {

#[verifier::external_type_specification]
#[verifier::external_body]
pub struct ExSourceMapError(sourcemap::Error);

#[verifier::external_type_specification]
#[verifier::external_body]
pub struct ExSourceMapBuilder(sourcemap::SourceMapBuilder);

#[verifier::external_type_specification]
#[verifier::external_body]
pub struct ExSourceMap(sourcemap::SourceMap);

/// A token: destination line and column, source line and column, source name, symbol name,
/// range flag.
pub type TokenDesc = (u32, u32, u32, u32, Option<Seq<char>>, Option<Seq<char>>, bool);

/// The tokens added to a builder, in order.
pub uninterp spec fn builder_tokens(b: sourcemap::SourceMapBuilder) -> Seq<TokenDesc>;

/// The source names registered with a builder, by id.
pub uninterp spec fn builder_sources(b: sourcemap::SourceMapBuilder) -> Seq<Seq<char>>;

/// The symbol names registered with a builder, by id.
pub uninterp spec fn builder_names(b: sourcemap::SourceMapBuilder) -> Seq<Seq<char>>;

/// The source contents recorded in a builder, by source id.
pub uninterp spec fn builder_contents(b: sourcemap::SourceMapBuilder) -> Seq<Option<Seq<char>>>;

/// The tokens of a source map, by index.
pub uninterp spec fn map_tokens(m: sourcemap::SourceMap) -> Seq<TokenDesc>;

/// The source names of a source map, by id.
pub uninterp spec fn map_sources(m: sourcemap::SourceMap) -> Seq<Seq<char>>;

/// The symbol names of a source map, by id.
pub uninterp spec fn map_names(m: sourcemap::SourceMap) -> Seq<Seq<char>>;

/// The source contents of a source map, by source id.
pub uninterp spec fn map_contents(m: sourcemap::SourceMap) -> Seq<Option<Seq<char>>>;

/// The builder carries nothing besides tokens, names, sources and contents: no file, no source
/// root, no debug id, no ignore list, no range token.
pub uninterp spec fn builder_is_plain(b: sourcemap::SourceMapBuilder) -> bool;

/// The map carries nothing besides tokens, names, sources and contents: no file, no source
/// root, no debug id, no ignore list, no range token.
pub uninterp spec fn map_is_plain(m: sourcemap::SourceMap) -> bool;

/// The Source Map v3 JSON text written for a plain map with these tokens, names, sources and
/// contents.
pub uninterp spec fn map_json(
    tokens: Seq<TokenDesc>,
    names: Seq<Seq<char>>,
    sources: Seq<Seq<char>>,
    contents: Seq<Option<Seq<char>>>,
) -> Seq<char>;

/// The tokens of the regular source map that the JSON text `json` parses to, or `None` when it
/// does not parse to one.
pub uninterp spec fn parsed_map(json: Seq<char>) -> Option<Seq<TokenDesc>>;

/// The tokens are sorted by destination line and column.
pub open spec fn tokens_sorted(toks: Seq<TokenDesc>) -> bool {
    forall|i: int, j: int|
        0 <= i < j < toks.len() ==> (#[trigger] toks[i]).0 < (#[trigger] toks[j]).0 || (toks[i].0
            == toks[j].0 && toks[i].1 <= toks[j].1)
}

/// The token's destination is `(line, col)`.
pub open spec fn dst_is(t: TokenDesc, line: u32, col: u32) -> bool {
    t.0 == line && t.1 == col
}

/// The token's destination comes before `(line, col)`.
pub open spec fn dst_before(t: TokenDesc, line: u32, col: u32) -> bool {
    t.0 < line || (t.0 == line && t.1 < col)
}

/// The token a lookup of `(line, col)` resolves to in sorted tokens: the first one at exactly
/// that destination, else the last one before it, else none.
pub open spec fn lookup_index(toks: Seq<TokenDesc>, line: u32, col: u32) -> Option<int> {
    if exists|i: int| 0 <= i < toks.len() && dst_is(#[trigger] toks[i], line, col) {
        Some(
            choose|i: int|
                0 <= i < toks.len() && dst_is(#[trigger] toks[i], line, col) && forall|j: int|
                    0 <= j < i ==> !dst_is(#[trigger] toks[j], line, col),
        )
    } else if exists|i: int| 0 <= i < toks.len() && dst_before(#[trigger] toks[i], line, col) {
        Some(
            choose|i: int|
                0 <= i < toks.len() && dst_before(#[trigger] toks[i], line, col) && forall|j: int|
                    i < j < toks.len() ==> !dst_before(#[trigger] toks[j], line, col),
        )
    } else {
        None
    }
}

/// A mapping as a point token description.
pub open spec fn token_of(m: Mapping) -> TokenDesc {
    (
        m.dst_line,
        m.dst_col,
        m.src_line,
        m.src_col,
        match m.source {
            Some(s) => Some(s@),
            None => None,
        },
        match m.name {
            Some(s) => Some(s@),
            None => None,
        },
        false,
    )
}

/// A mapping read from a token, with the token's range flag.
pub open spec fn token_with_range(m: Mapping, range: bool) -> TokenDesc {
    let t = token_of(m);
    (t.0, t.1, t.2, t.3, t.4, t.5, range)
}

/// The ids after registering `x`: unchanged for none or a known name, else `x` at the end.
pub open spec fn register(ids: Seq<Seq<char>>, x: Option<Seq<char>>) -> Seq<Seq<char>> {
    match x {
        None => ids,
        Some(v) => if ids.contains(v) {
            ids
        } else {
            ids.push(v)
        },
    }
}

/// The ids after registering each of `xs` in order, starting from `init`.
pub open spec fn registered(init: Seq<Seq<char>>, xs: Seq<Option<Seq<char>>>) -> Seq<Seq<char>>
    decreases xs.len(),
{
    if xs.len() == 0 {
        init
    } else {
        register(registered(init, xs.drop_last()), xs.last())
    }
}

/// Relies on `SourceMapBuilder::new`: a builder starts with no token, source, name or content.
#[verifier::external_body]
pub(crate) fn new_builder() -> (r: sourcemap::SourceMapBuilder)
    ensures
        builder_tokens(r) == Seq::<TokenDesc>::empty(),
        builder_sources(r) == Seq::<Seq<char>>::empty(),
        builder_names(r) == Seq::<Seq<char>>::empty(),
        builder_contents(r) == Seq::<Option<Seq<char>>>::empty(),
        builder_is_plain(r),
{
    sourcemap::SourceMapBuilder::new(None)
}

/// Relies on `SourceMapBuilder::add_source`: it returns the id of `src`, registering it at the
/// end when it is new, and leaves tokens, names and contents alone.
#[verifier::external_body]
pub(crate) fn builder_add_source(b: &mut sourcemap::SourceMapBuilder, src: &str) -> (r: u32)
    ensures
        builder_tokens(*final(b)) == builder_tokens(*old(b)),
        builder_names(*final(b)) == builder_names(*old(b)),
        builder_contents(*final(b)) == builder_contents(*old(b)),
        builder_is_plain(*final(b)) == builder_is_plain(*old(b)),
        builder_sources(*final(b)) == register(builder_sources(*old(b)), Some(src@)),
        r < builder_sources(*final(b)).len(),
        builder_sources(*final(b))[r as int] == src@,
{
    b.add_source(src)
}

/// Relies on `SourceMapBuilder::set_source_contents`: it pads the contents with `None` up to the
/// number of sources and records `contents` for a registered source (it panics on an id that is
/// not registered); tokens, sources and names stay.
#[verifier::external_body]
pub(crate) fn builder_set_source_contents(
    b: &mut sourcemap::SourceMapBuilder,
    src_id: u32,
    contents: &str,
)
    requires
        src_id < builder_sources(*old(b)).len(),
    ensures
        builder_tokens(*final(b)) == builder_tokens(*old(b)),
        builder_sources(*final(b)) == builder_sources(*old(b)),
        builder_names(*final(b)) == builder_names(*old(b)),
        builder_is_plain(*final(b)) == builder_is_plain(*old(b)),
        builder_contents(*final(b)) == (if builder_sources(*old(b)).len() > builder_contents(
            *old(b),
        ).len() {
            builder_contents(*old(b)) + Seq::new(
                (builder_sources(*old(b)).len() - builder_contents(*old(b)).len()) as nat,
                |i: int| None::<Seq<char>>,
            )
        } else {
            builder_contents(*old(b))
        }).update(src_id as int, Some(contents@)),
{
    b.set_source_contents(src_id, Some(contents))
}

/// Relies on `SourceMapBuilder::add`: it appends a point token with the given fields,
/// registering its source and its name when new; contents stay.
#[verifier::external_body]
pub(crate) fn builder_add(b: &mut sourcemap::SourceMapBuilder, m: &Mapping)
    ensures
        builder_tokens(*final(b)) == builder_tokens(*old(b)).push(token_of(*m)),
        builder_sources(*final(b)) == register(builder_sources(*old(b)), token_of(*m).4),
        builder_names(*final(b)) == register(builder_names(*old(b)), token_of(*m).5),
        builder_contents(*final(b)) == builder_contents(*old(b)),
        builder_is_plain(*final(b)) == builder_is_plain(*old(b)),
{
    b.add(m.dst_line, m.dst_col, m.src_line, m.src_col, m.source, m.name, false);
}

/// Relies on `SourceMapBuilder::into_sourcemap`: the map holds the builder's tokens, sorted by
/// destination line and column, and its sources, names and contents; from a plain builder, nothing
/// else.
#[verifier::external_body]
pub(crate) fn builder_finish(b: sourcemap::SourceMapBuilder) -> (r: sourcemap::SourceMap)
    requires
        builder_is_plain(b),
    ensures
        map_tokens(r).to_multiset() == builder_tokens(b).to_multiset(),
        forall|i: int, j: int|
            0 <= i < j < map_tokens(r).len() ==> (#[trigger] map_tokens(r)[i]).0 < (
            #[trigger] map_tokens(r)[j]).0 || (map_tokens(r)[i].0 == map_tokens(r)[j].0
                && map_tokens(r)[i].1 <= map_tokens(r)[j].1),
        map_sources(r) == builder_sources(b),
        map_names(r) == builder_names(b),
        map_contents(r) == builder_contents(b),
        map_is_plain(r),
{
    b.into_sourcemap()
}

/// Relies on `SourceMap::to_writer`: it serialises the map with serde_json into a `Vec`, which
/// cannot fail for a plain map, and the text is the map's Source Map v3 JSON.
#[verifier::external_body]
pub(crate) fn map_to_json(m: &sourcemap::SourceMap) -> (r: Result<String, sourcemap::Error>)
    requires
        map_is_plain(*m),
    ensures
        r is Ok,
        r matches Ok(j) ==> j@ == map_json(map_tokens(*m), map_names(*m), map_sources(*m), map_contents(*m)),
{
    let mut buf: Vec<u8> = Vec::new();
    m.to_writer(&mut buf)?;
    Ok(String::from_utf8_lossy(&buf).into_owned())
}

/// Relies on `SourceMap::from_slice`: it parses JSON text to a regular source map, or fails; the
/// map is built by `SourceMap::new`, which sorts its tokens by destination.
#[verifier::external_body]
pub(crate) fn map_from_json(json: &str) -> (r: Result<sourcemap::SourceMap, sourcemap::Error>)
    ensures
        r is Ok <==> parsed_map(json@) is Some,
        r matches Ok(m) ==> map_tokens(m) == parsed_map(json@)->Some_0,
        r matches Ok(m) ==> tokens_sorted(map_tokens(m)),
{
    sourcemap::SourceMap::from_slice(json.as_bytes())
}

/// Relies on `sourcemap::Error::IncompatibleSourceMap`: the error for a map this library does
/// not take.
#[verifier::external_body]
pub(crate) fn incompatible_map_error() -> (r: sourcemap::Error) {
    sourcemap::Error::IncompatibleSourceMap
}

/// Relies on `SourceMap::get_token` and `Token::is_range`: the token at `idx`, present exactly
/// when `idx` is in range, described by its getters, with its range flag.
#[verifier::external_body]
pub(crate) fn map_token<'a>(m: &'a sourcemap::SourceMap, idx: usize) -> (r: Option<
    (Mapping<'a>, bool),
>)
    ensures
        r is Some <==> idx < map_tokens(*m).len(),
        r is Some ==> map_tokens(*m).len() <= usize::MAX,
        r matches Some((t, range)) ==> token_with_range(t, range) == map_tokens(*m)[idx as int],
{
    let t = m.get_token(idx)?;
    let mapping = Mapping {
        dst_line: t.get_dst_line(),
        dst_col: t.get_dst_col(),
        src_line: t.get_src_line(),
        src_col: t.get_src_col(),
        source: t.get_source(),
        name: t.get_name(),
    };
    Some((mapping, t.is_range()))
}

/// Relies on `SourceMap::lookup_token`: in sorted tokens it finds the greatest lower bound of
/// `(line, col)` by destination, the first of equal ones on an exact match. On a range token it
/// subtracts columns that may underflow, so the map must hold none; the token comes back as its
/// getters read it.
#[verifier::external_body]
pub(crate) fn map_lookup<'a>(m: &'a sourcemap::SourceMap, line: u32, col: u32) -> (r: Option<
    Mapping<'a>,
>)
    requires
        tokens_sorted(map_tokens(*m)),
        forall|i: int| 0 <= i < map_tokens(*m).len() ==> !(#[trigger] map_tokens(*m)[i]).6,
    ensures
        match lookup_index(map_tokens(*m), line, col) {
            Some(i) => r is Some && token_of(r->Some_0) == map_tokens(*m)[i],
            None => r is None,
        },
{
    let t = m.lookup_token(line, col)?;
    Some(
        Mapping {
            dst_line: t.get_dst_line(),
            dst_col: t.get_dst_col(),
            src_line: t.get_src_line(),
            src_col: t.get_src_col(),
            source: t.get_source(),
            name: t.get_name(),
        },
    )
}

} // verus!
