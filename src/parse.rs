//! Compiling textual filter specifications into filters.
use vstd::prelude::*;
use vstd::string::*;

use crate::codec::{
    base58_decoded, bytes_view, decode_base58, decode_hex, hex_bytes, parse_pubkey,
    pubkey_decoded, trim_text, trimmed,
};
use crate::filter::{vecs_view, AccountFilter, DigestSet, FilterParseError, MemCmp, MemCmpBytes, OwnerFilter};
use crate::text::{
    all_b58, all_digits, all_hex, chars_of, decimal_value, find_last, has_prefix, is_b58_text,
    is_digit_text, is_hex_text, last_index_of, lemma_split_on_nonempty, parse_decimal,
    slice_chars, split_on, split_text,
};

verus! {

/// What a content comparison expects, as values.
pub enum PatternModel {
    Exact(Seq<u8>),
    AnyOf(Seq<Seq<u8>>),
}

pub struct MemCmpModel {
    pub offset: usize,
    pub pattern: PatternModel,
}

pub struct OwnerModel {
    pub owner: Seq<u8>,
    pub size_filter: Option<u64>,
    pub memcmps: Seq<MemCmpModel>,
}

/// What the options read so far have given, and how many files they used.
pub struct OptionsModel {
    pub size_filter: Option<u64>,
    pub memcmps: Seq<MemCmpModel>,
    pub files_used: nat,
}

impl MemCmp {
    pub open spec fn model(&self) -> MemCmpModel {
        MemCmpModel {
            offset: self.offset,
            pattern: match self.bytes {
                MemCmpBytes::One(b) => PatternModel::Exact(b@),
                MemCmpBytes::AnyOf32(d) => PatternModel::AnyOf(d@),
            },
        }
    }
}

pub open spec fn memcmps_model(v: Seq<MemCmp>) -> Seq<MemCmpModel> {
    v.map_values(|m: MemCmp| m.model())
}

impl OwnerFilter {
    pub open spec fn model(&self) -> OwnerModel {
        OwnerModel {
            owner: self.owner@,
            size_filter: self.size_filter,
            memcmps: memcmps_model(self.memcmp_filters@),
        }
    }
}

pub open spec fn texts_view(v: Seq<Option<String>>) -> Seq<Option<Seq<char>>> {
    v.map_values(|o: Option<String>| match o {
        Some(t) => Some(t@),
        None => None,
    })
}

// ---- the content of a file of 32-byte values ----

/// One trimmed line: `0x` and hexadecimal digits, or base-58.
pub open spec fn digest_line(t: Seq<char>) -> Option<Seq<u8>> {
    if t.len() >= 2 && t[0] == '0' && t[1] == 'x' {
        let h = t.subrange(2, t.len() as int);
        if all_hex(h) && h.len() % 2 == 0 {
            Some(hex_bytes(h))
        } else {
            None
        }
    } else {
        base58_decoded(t)
    }
}

/// The values of the lines; blank lines are skipped and every other line must give
/// exactly 32 bytes.
pub open spec fn digest_lines(lines: Seq<Seq<char>>) -> Option<Seq<Seq<u8>>>
    decreases lines.len(),
{
    if lines.len() == 0 {
        Some(Seq::empty())
    } else {
        match digest_lines(lines.drop_last()) {
            None => None,
            Some(acc) => {
                let t = trimmed(lines.last());
                if t.len() == 0 {
                    Some(acc)
                } else {
                    match digest_line(t) {
                        Some(b) => if b.len() == 32 {
                            Some(acc.push(b))
                        } else {
                            None
                        },
                        None => None,
                    }
                }
            },
        }
    }
}

pub open spec fn file_digests(content: Seq<char>) -> Option<Seq<Seq<u8>>> {
    digest_lines(split_on(content, '\n'))
}

proof fn lemma_digest_lines_fail(lines: Seq<Seq<char>>, k: int)
    requires
        0 <= k <= lines.len(),
        digest_lines(lines.subrange(0, k)) is None,
    ensures
        digest_lines(lines) is None,
    decreases lines.len() - k,
{
    if k == lines.len() {
        assert(lines.subrange(0, k) =~= lines);
    } else {
        assert(lines.subrange(0, k + 1).drop_last() =~= lines.subrange(0, k));
        lemma_digest_lines_fail(lines, k + 1);
    }
}

fn decode_digest_line(t: &Vec<char>) -> (r: Option<Vec<u8>>)
    ensures
        bytes_view(r) == digest_line(t@),
{
    if t.len() >= 2 && t[0] == '0' && t[1] == 'x' {
        let h = slice_chars(t, 2, t.len());
        if !is_hex_text(&h) {
            return None;
        }
        decode_hex(&h)
    } else {
        decode_base58(t)
    }
}

/// Reads a file of 32-byte values, one per line in hexadecimal (after `0x`) or base-58.
pub fn parse_memcmp_file(content: &String) -> (r: Result<Vec<Vec<u8>>, FilterParseError>)
    ensures
        r is Ok <==> file_digests(content@) is Some,
        r is Ok ==> file_digests(content@) == Some(vecs_view(r->Ok_0@)),
        r is Err ==> r->Err_0 == FilterParseError::InvalidMemcmpFileFilter,
{
    let lines = split_text(content.as_str(), '\n');
    let ghost ls = split_on(content@, '\n');
    let mut set: Vec<Vec<u8>> = Vec::new();
    let mut i: usize = 0;
    assert(ls.subrange(0, 0) =~= Seq::<Seq<char>>::empty());
    assert(vecs_view(set@) =~= Seq::<Seq<u8>>::empty());
    while i < lines.len()
        invariant
            ls == split_on(content@, '\n'),
            lines@.len() == ls.len(),
            forall|k: int| 0 <= k < lines@.len() ==> (#[trigger] lines@[k])@ == ls[k],
            i <= lines@.len(),
            digest_lines(ls.subrange(0, i as int)) == Some(vecs_view(set@)),
        decreases lines@.len() - i,
    {
        let t = trim_text(lines[i].as_str());
        let ghost pre = ls.subrange(0, i as int + 1);
        assert(pre.drop_last() =~= ls.subrange(0, i as int));
        assert(pre.last() == lines@[i as int]@);
        if t.as_str().unicode_len() != 0 {
            let tc = chars_of(t.as_str());
            match decode_digest_line(&tc) {
                Some(b) => {
                    if b.len() != 32 {
                        proof {
                            lemma_digest_lines_fail(ls, i as int + 1);
                        }
                        return Err(FilterParseError::InvalidMemcmpFileFilter);
                    }
                    let ghost before = set@;
                    set.push(b);
                    assert(vecs_view(set@) =~= vecs_view(before).push(b@));
                },
                None => {
                    proof {
                        lemma_digest_lines_fail(ls, i as int + 1);
                    }
                    return Err(FilterParseError::InvalidMemcmpFileFilter);
                },
            }
        }
        i += 1;
    }
    assert(ls.subrange(0, i as int) =~= ls);
    Ok(set)
}

// ---- the options of an owner filter ----

pub open spec fn size_tag() -> Seq<char> {
    seq!['s', 'i', 'z', 'e', ':']
}

pub open spec fn memcmp_tag() -> Seq<char> {
    seq!['m', 'e', 'm', 'c', 'm', 'p', ':']
}

pub open spec fn hex_tag() -> Seq<char> {
    seq!['m', 'e', 'm', 'c', 'm', 'p', ':', '0', 'x']
}

pub open spec fn file_tag() -> Seq<char> {
    seq!['m', 'e', 'm', 'c', 'm', 'p', 'f', 'i', 'l', 'e', ':']
}

pub open spec fn starts_with(s: Seq<char>, p: Seq<char>) -> bool {
    p.len() <= s.len() && s.subrange(0, p.len() as int) == p
}

/// `<tag><body>@<offset>`, the body non-empty and the offset non-empty decimal digits;
/// the body ends at the last `@`.
pub open spec fn tagged_at(o: Seq<char>, tag: Seq<char>) -> bool {
    let at = last_index_of(o, '@');
    &&& starts_with(o, tag)
    &&& at > tag.len()
    &&& at + 1 < o.len()
    &&& all_digits(o.subrange(at + 1, o.len() as int))
}

pub open spec fn body_of(o: Seq<char>, tag: Seq<char>) -> Seq<char> {
    o.subrange(tag.len() as int, last_index_of(o, '@'))
}

pub open spec fn offset_of(o: Seq<char>) -> nat {
    decimal_value(o.subrange(last_index_of(o, '@') + 1, o.len() as int))
}

/// `size:<decimal>`
pub open spec fn is_size_option(o: Seq<char>) -> bool {
    starts_with(o, size_tag()) && o.len() > 5 && all_digits(o.subrange(5, o.len() as int))
}

/// `memcmp:0x<pairs of hexadecimal digits>@<decimal>`
pub open spec fn is_hex_option(o: Seq<char>) -> bool {
    tagged_at(o, hex_tag()) && all_hex(body_of(o, hex_tag())) && body_of(o, hex_tag()).len() % 2
        == 0
}

/// `memcmp:<base-58>@<decimal>`
pub open spec fn is_base58_option(o: Seq<char>) -> bool {
    tagged_at(o, memcmp_tag()) && all_b58(body_of(o, memcmp_tag()))
}

/// `memcmpfile:<path without @>@<decimal>`
pub open spec fn is_file_option(o: Seq<char>) -> bool {
    tagged_at(o, file_tag()) && last_index_of(body_of(o, file_tag()), '@') == -1
}

pub open spec fn with_memcmp(st: OptionsModel, m: MemCmpModel, files: nat) -> OptionsModel {
    OptionsModel { size_filter: st.size_filter, memcmps: st.memcmps.push(m), files_used: files }
}

/// The effect of one option, given the contents of the files that `memcmpfile`
/// options name, in the order in which they come.
pub open spec fn option_step(
    st: OptionsModel,
    o: Seq<char>,
    files: Seq<Option<Seq<char>>>,
) -> Result<OptionsModel, FilterParseError> {
    if is_size_option(o) {
        let v = decimal_value(o.subrange(5, o.len() as int));
        if v > u64::MAX {
            Err(FilterParseError::InvalidSizeFilter)
        } else if st.size_filter is Some {
            Err(FilterParseError::MultipleSizeFilter)
        } else {
            Ok(
                OptionsModel {
                    size_filter: Some(v as u64),
                    memcmps: st.memcmps,
                    files_used: st.files_used,
                },
            )
        }
    } else if is_hex_option(o) {
        if offset_of(o) > usize::MAX {
            Err(FilterParseError::InvalidOffsetMemcmpFilter)
        } else {
            Ok(
                with_memcmp(
                    st,
                    MemCmpModel {
                        offset: offset_of(o) as usize,
                        pattern: PatternModel::Exact(hex_bytes(body_of(o, hex_tag()))),
                    },
                    st.files_used,
                ),
            )
        }
    } else if is_base58_option(o) {
        match base58_decoded(body_of(o, memcmp_tag())) {
            None => Err(FilterParseError::InvalidBytesMemcmpFilter),
            Some(b) => if offset_of(o) > usize::MAX {
                Err(FilterParseError::InvalidOffsetMemcmpFilter)
            } else {
                Ok(
                    with_memcmp(
                        st,
                        MemCmpModel { offset: offset_of(o) as usize, pattern: PatternModel::Exact(b) },
                        st.files_used,
                    ),
                )
            },
        }
    } else if is_file_option(o) {
        if offset_of(o) > usize::MAX {
            Err(FilterParseError::InvalidOffsetMemcmpFilter)
        } else if st.files_used >= files.len() {
            Err(FilterParseError::InvalidMemcmpFileFilter)
        } else {
            match files[st.files_used as int] {
                None => Err(FilterParseError::InvalidMemcmpFileFilter),
                Some(content) => match file_digests(content) {
                    None => Err(FilterParseError::InvalidMemcmpFileFilter),
                    Some(d) => Ok(
                        with_memcmp(
                            st,
                            MemCmpModel {
                                offset: offset_of(o) as usize,
                                pattern: PatternModel::AnyOf(d),
                            },
                            st.files_used + 1,
                        ),
                    ),
                },
            }
        }
    } else {
        Err(FilterParseError::UnknownFilter)
    }
}

struct OptionsState {
    size_filter: Option<u64>,
    memcmp_filters: Vec<MemCmp>,
    files_used: usize,
}

impl OptionsState {
    spec fn model(&self) -> OptionsModel {
        OptionsModel {
            size_filter: self.size_filter,
            memcmps: memcmps_model(self.memcmp_filters@),
            files_used: self.files_used as nat,
        }
    }
}

/// The offset after the last `@`, or the error for an offset too large for `usize`.
fn read_offset(o: &Vec<char>, at: usize) -> (r: Result<usize, FilterParseError>)
    requires
        at + 1 < o.len(),
        all_digits(o@.subrange(at + 1, o@.len() as int)),
    ensures
        r is Ok <==> decimal_value(o@.subrange(at + 1, o@.len() as int)) <= usize::MAX,
        r is Ok ==> r->Ok_0 == decimal_value(o@.subrange(at + 1, o@.len() as int)),
        r is Err ==> r->Err_0 == FilterParseError::InvalidOffsetMemcmpFilter,
{
    let digits = slice_chars(o, at + 1, o.len());
    match parse_decimal(&digits, usize::MAX as u128) {
        Some(v) => Ok(v as usize),
        None => Err(FilterParseError::InvalidOffsetMemcmpFilter),
    }
}

/// `Some(position of the last @)` when `o` has the shape `<tag><body>@<offset>`.
fn tagged_position(o: &Vec<char>, tag: &Vec<char>) -> (r: Option<usize>)
    ensures
        r is Some <==> tagged_at(o@, tag@),
        r is Some ==> r->0 as int == last_index_of(o@, '@'),
{
    if !has_prefix(o, tag) {
        return None;
    }
    match find_last(o, '@') {
        None => None,
        Some(at) => {
            if at > tag.len() && at < o.len() - 1 {
                let digits = slice_chars(o, at + 1, o.len());
                if is_digit_text(&digits) {
                    return Some(at);
                }
            }
            None
        },
    }
}

fn push_memcmp(st: &mut OptionsState, m: MemCmp)
    ensures
        final(st).model() == with_memcmp(old(st).model(), m.model(), old(st).files_used as nat),
        final(st).files_used == old(st).files_used,
{
    let ghost before = st.memcmp_filters@;
    st.memcmp_filters.push(m);
    assert(memcmps_model(st.memcmp_filters@) =~= memcmps_model(before).push(m.model()));
}

/// Applies one option of an owner filter to what the options before it gave.
fn apply_option(o: &Vec<char>, st: &mut OptionsState, files: &Vec<Option<String>>) -> (r: Result<
    (),
    FilterParseError,
>)
    requires
        old(st).files_used <= files@.len(),
    ensures
        final(st).files_used <= files@.len(),
        match option_step(old(st).model(), o@, texts_view(files@)) {
            Ok(m) => r is Ok && final(st).model() == m,
            Err(e) => r == Err::<(), FilterParseError>(e),
        },
{
    let size_t = chars_of("size:");
    let hex_t = chars_of("memcmp:0x");
    let mem_t = chars_of("memcmp:");
    let file_t = chars_of("memcmpfile:");
    proof {
        reveal_strlit("size:");
        reveal_strlit("memcmp:0x");
        reveal_strlit("memcmp:");
        reveal_strlit("memcmpfile:");
        assert(size_t@ =~= size_tag());
        assert(hex_t@ =~= hex_tag());
        assert(mem_t@ =~= memcmp_tag());
        assert(file_t@ =~= file_tag());
    }
    if has_prefix(o, &size_t) && o.len() > 5 {
        let digits = slice_chars(o, 5, o.len());
        if is_digit_text(&digits) {
            match parse_decimal(&digits, u64::MAX as u128) {
                None => {
                    return Err(FilterParseError::InvalidSizeFilter);
                },
                Some(v) => {
                    if st.size_filter.is_some() {
                        return Err(FilterParseError::MultipleSizeFilter);
                    }
                    st.size_filter = Some(v as u64);
                    return Ok(());
                },
            }
        }
    }
    if let Some(at) = tagged_position(o, &hex_t) {
        let body = slice_chars(o, hex_t.len(), at);
        if is_hex_text(&body) && body.len() % 2 == 0 {
            let bytes = match decode_hex(&body) {
                Some(b) => b,
                None => {
                    return Err(FilterParseError::InvalidBytesMemcmpFilter);
                },
            };
            match read_offset(o, at) {
                Err(e) => {
                    return Err(e);
                },
                Ok(offset) => {
                    push_memcmp(st, MemCmp { offset, bytes: MemCmpBytes::One(bytes) });
                    return Ok(());
                },
            }
        }
    }
    if let Some(at) = tagged_position(o, &mem_t) {
        let body = slice_chars(o, mem_t.len(), at);
        if is_b58_text(&body) {
            let bytes = match decode_base58(&body) {
                Some(b) => b,
                None => {
                    return Err(FilterParseError::InvalidBytesMemcmpFilter);
                },
            };
            match read_offset(o, at) {
                Err(e) => {
                    return Err(e);
                },
                Ok(offset) => {
                    push_memcmp(st, MemCmp { offset, bytes: MemCmpBytes::One(bytes) });
                    return Ok(());
                },
            }
        }
    }
    if let Some(at) = tagged_position(o, &file_t) {
        let path = slice_chars(o, file_t.len(), at);
        if find_last(&path, '@').is_none() {
            let offset = match read_offset(o, at) {
                Err(e) => {
                    return Err(e);
                },
                Ok(v) => v,
            };
            if st.files_used >= files.len() {
                return Err(FilterParseError::InvalidMemcmpFileFilter);
            }
            match &files[st.files_used] {
                None => {
                    return Err(FilterParseError::InvalidMemcmpFileFilter);
                },
                Some(content) => {
                    match parse_memcmp_file(content) {
                        Err(e) => {
                            return Err(e);
                        },
                        Ok(set) => {
                            push_memcmp(st, MemCmp { offset, bytes: MemCmpBytes::AnyOf32(DigestSet::new(set)) });
                            st.files_used = st.files_used + 1;
                            return Ok(());
                        },
                    }
                },
            }
        }
    }
    Err(FilterParseError::UnknownFilter)
}

// ---- owner filters ----

/// The options in order, each applied to what the ones before it gave; the first
/// refused option decides the error.
pub open spec fn parse_options(opts: Seq<Seq<char>>, files: Seq<Option<Seq<char>>>) -> Result<
    OptionsModel,
    FilterParseError,
>
    decreases opts.len(),
{
    if opts.len() == 0 {
        Ok(OptionsModel { size_filter: None, memcmps: Seq::empty(), files_used: 0 })
    } else {
        match parse_options(opts.drop_last(), files) {
            Err(e) => Err(e),
            Ok(st) => option_step(st, opts.last(), files),
        }
    }
}

/// `<owner>(,<option>)*`: a base-58 owner and options that are not empty.
pub open spec fn owner_syntax_ok(pieces: Seq<Seq<char>>) -> bool {
    &&& pieces.len() >= 1
    &&& pieces[0].len() > 0
    &&& all_b58(pieces[0])
    &&& forall|k: int| 1 <= k < pieces.len() ==> (#[trigger] pieces[k]).len() > 0
}

/// The owner filter that an owner specification describes.
pub open spec fn owner_filter_of(s: Seq<char>, files: Seq<Option<Seq<char>>>) -> Result<
    OwnerModel,
    FilterParseError,
> {
    let pieces = split_on(s, ',');
    if !owner_syntax_ok(pieces) {
        Err(FilterParseError::InvalidOwnerFilterSyntax)
    } else {
        match pubkey_decoded(pieces[0]) {
            None => Err(FilterParseError::InvalidOwnerPubkey),
            Some(owner) => match parse_options(pieces.drop_first(), files) {
                Err(e) => Err(e),
                Ok(st) => Ok(
                    OwnerModel { owner, size_filter: st.size_filter, memcmps: st.memcmps },
                ),
            },
        }
    }
}

/// The paths named by the `memcmpfile` options, in order.
pub open spec fn file_paths(opts: Seq<Seq<char>>) -> Seq<Seq<char>>
    decreases opts.len(),
{
    if opts.len() == 0 {
        Seq::empty()
    } else if is_file_option(opts.last()) {
        file_paths(opts.drop_last()).push(body_of(opts.last(), file_tag()))
    } else {
        file_paths(opts.drop_last())
    }
}

proof fn lemma_parse_options_fail(opts: Seq<Seq<char>>, files: Seq<Option<Seq<char>>>, k: int)
    requires
        0 <= k <= opts.len(),
        parse_options(opts.subrange(0, k), files) is Err,
    ensures
        parse_options(opts, files) == parse_options(opts.subrange(0, k), files),
    decreases opts.len() - k,
{
    if k == opts.len() {
        assert(opts.subrange(0, k) =~= opts);
    } else {
        assert(opts.subrange(0, k + 1).drop_last() =~= opts.subrange(0, k));
        lemma_parse_options_fail(opts, files, k + 1);
    }
}

fn owner_pieces(owner_with_opts: &String) -> (r: Vec<Vec<char>>)
    ensures
        r@.len() == split_on(owner_with_opts@, ',').len(),
        forall|k: int|
            0 <= k < r@.len() ==> (#[trigger] r@[k])@ == split_on(owner_with_opts@, ',')[k],
{
    let texts = split_text(owner_with_opts.as_str(), ',');
    let mut r: Vec<Vec<char>> = Vec::new();
    let mut i: usize = 0;
    while i < texts.len()
        invariant
            i <= texts@.len(),
            r@.len() == i,
            forall|k: int| 0 <= k < i ==> (#[trigger] r@[k])@ == texts@[k]@,
        decreases texts@.len() - i,
    {
        r.push(chars_of(texts[i].as_str()));
        i += 1;
    }
    r
}

impl OwnerFilter {
    /// Compiles `<owner>(,<option>)*`. `memcmp_files` holds, in order, the contents of
    /// the files that the `memcmpfile` options name (see `memcmpfile_paths`); `None`
    /// for one that could not be read.
    pub fn new(owner_with_opts: &String, memcmp_files: &Vec<Option<String>>) -> (r: Result<
        Self,
        FilterParseError,
    >)
        ensures
            match owner_filter_of(owner_with_opts@, texts_view(memcmp_files@)) {
                Ok(m) => r is Ok && r->Ok_0.model() == m,
                Err(e) => r is Err && r->Err_0 == e,
            },
            r is Ok ==> r->Ok_0.owner@.len() == 32,
    {
        let pieces = owner_pieces(owner_with_opts);
        let ghost ps = split_on(owner_with_opts@, ',');
        proof {
            lemma_split_on_nonempty(owner_with_opts@, ',');
        }
        if !is_b58_text(&pieces[0]) || pieces[0].len() == 0 {
            return Err(FilterParseError::InvalidOwnerFilterSyntax);
        }
        let mut k: usize = 1;
        while k < pieces.len()
            invariant
                1 <= k <= pieces@.len(),
                pieces@.len() == ps.len(),
                ps == split_on(owner_with_opts@, ','),
                forall|j: int| 0 <= j < pieces@.len() ==> (#[trigger] pieces@[j])@ == ps[j],
                forall|j: int| 1 <= j < k ==> (#[trigger] ps[j]).len() > 0,
            decreases pieces@.len() - k,
        {
            if pieces[k].len() == 0 {
                assert(ps[k as int].len() == 0);
                return Err(FilterParseError::InvalidOwnerFilterSyntax);
            }
            k += 1;
        }
        assert(owner_syntax_ok(ps));
        let owner = match parse_pubkey(&pieces[0]) {
            Some(o) => o,
            None => {
                return Err(FilterParseError::InvalidOwnerPubkey);
            },
        };
        let ghost opts = ps.drop_first();
        let mut st = OptionsState { size_filter: None, memcmp_filters: Vec::new(), files_used: 0 };
        assert(opts.subrange(0, 0) =~= Seq::<Seq<char>>::empty());
        assert(memcmps_model(st.memcmp_filters@) =~= Seq::<MemCmpModel>::empty());
        let mut i: usize = 1;
        while i < pieces.len()
            invariant
                1 <= i <= pieces@.len(),
                pieces@.len() == ps.len(),
                opts == ps.drop_first(),
                ps == split_on(owner_with_opts@, ','),
                owner_syntax_ok(ps),
                pubkey_decoded(ps[0]) == Some(owner@),
                forall|j: int| 0 <= j < pieces@.len() ==> (#[trigger] pieces@[j])@ == ps[j],
                st.files_used <= memcmp_files@.len(),
                parse_options(opts.subrange(0, i - 1), texts_view(memcmp_files@)) == Ok::<
                    OptionsModel,
                    FilterParseError,
                >(st.model()),
            decreases pieces@.len() - i,
        {
            let ghost pre = opts.subrange(0, i as int);
            assert(pre.drop_last() =~= opts.subrange(0, i - 1));
            assert(pre.last() == pieces@[i as int]@);
            match apply_option(&pieces[i], &mut st, memcmp_files) {
                Err(e) => {
                    proof {
                        lemma_parse_options_fail(opts, texts_view(memcmp_files@), i as int);
                    }
                    return Err(e);
                },
                Ok(()) => {},
            }
            i += 1;
        }
        assert(opts.subrange(0, i - 1) =~= opts);
        Ok(
            OwnerFilter {
                owner,
                size_filter: st.size_filter,
                memcmp_filters: st.memcmp_filters,
            },
        )
    }

    /// The paths that the `memcmpfile` options of an owner specification name, in order.
    pub fn memcmpfile_paths(owner_with_opts: &String) -> (r: Vec<Vec<char>>)
        ensures
            r@.map_values(|p: Vec<char>| p@) == file_paths(split_on(owner_with_opts@, ',').drop_first()),
    {
        let pieces = owner_pieces(owner_with_opts);
        let ghost ps = split_on(owner_with_opts@, ',');
        let ghost opts = ps.drop_first();
        proof {
            lemma_split_on_nonempty(owner_with_opts@, ',');
        }
        let file_t = chars_of("memcmpfile:");
        proof {
            reveal_strlit("memcmpfile:");
            assert(file_t@ =~= file_tag());
        }
        let mut r: Vec<Vec<char>> = Vec::new();
        let mut i: usize = 1;
        assert(opts.subrange(0, 0) =~= Seq::<Seq<char>>::empty());
        assert(r@.map_values(|p: Vec<char>| p@) =~= Seq::<Seq<char>>::empty());
        while i < pieces.len()
            invariant
                1 <= i <= pieces@.len(),
                pieces@.len() == ps.len(),
                opts == ps.drop_first(),
                file_t@ == file_tag(),
                forall|j: int| 0 <= j < pieces@.len() ==> (#[trigger] pieces@[j])@ == ps[j],
                r@.map_values(|p: Vec<char>| p@) == file_paths(opts.subrange(0, i - 1)),
            decreases pieces@.len() - i,
        {
            let ghost pre = opts.subrange(0, i as int);
            assert(pre.drop_last() =~= opts.subrange(0, i - 1));
            assert(pre.last() == pieces@[i as int]@);
            let o = &pieces[i];
            if let Some(at) = tagged_position(o, &file_t) {
                let path = slice_chars(o, file_t.len(), at);
                if find_last(&path, '@').is_none() {
                    let ghost before = r@;
                    r.push(path);
                    assert(r@.map_values(|p: Vec<char>| p@) =~= before.map_values(
                        |p: Vec<char>| p@,
                    ).push(body_of(pieces@[i as int]@, file_tag())));
                }
            }
            i += 1;
        }
        assert(opts.subrange(0, i - 1) =~= opts);
        r
    }
}

// ---- account filters ----

pub open spec fn strings_view(v: Seq<String>) -> Seq<Seq<char>> {
    v.map_values(|s: String| s@)
}

pub open spec fn file_lists_view(v: Seq<Vec<Option<String>>>) -> Seq<Seq<Option<Seq<char>>>> {
    v.map_values(|f: Vec<Option<String>>| texts_view(f@))
}

/// Every comma-separated token of every address argument, verbatim and in order.
pub open spec fn listed_pubkeys(pubkeys: Seq<Seq<char>>) -> Seq<Seq<char>>
    decreases pubkeys.len(),
{
    if pubkeys.len() == 0 {
        Seq::empty()
    } else {
        listed_pubkeys(pubkeys.drop_last()) + split_on(pubkeys.last(), ',')
    }
}

/// The trimmed lines of an address file that are not blank, in order.
pub open spec fn file_pubkeys(lines: Seq<Seq<char>>) -> Seq<Seq<char>>
    decreases lines.len(),
{
    if lines.len() == 0 {
        Seq::empty()
    } else {
        let t = trimmed(lines.last());
        if t.len() == 0 {
            file_pubkeys(lines.drop_last())
        } else {
            file_pubkeys(lines.drop_last()).push(t)
        }
    }
}

pub open spec fn pubkey_list(pubkeys: Seq<Seq<char>>, pubkeyfile: Option<Seq<char>>) -> Seq<
    Seq<char>,
> {
    listed_pubkeys(pubkeys) + match pubkeyfile {
        Some(c) => file_pubkeys(split_on(c, '\n')),
        None => Seq::empty(),
    }
}

/// The file contents handed to the owner specification at `k`.
pub open spec fn files_for(files: Seq<Seq<Option<Seq<char>>>>, k: int) -> Seq<Option<Seq<char>>> {
    if 0 <= k < files.len() {
        files[k]
    } else {
        Seq::empty()
    }
}

/// The owner filters of the owner specifications in order; the first refused one
/// decides the error.
pub open spec fn owner_filters_of(
    owners: Seq<Seq<char>>,
    files: Seq<Seq<Option<Seq<char>>>>,
) -> Result<Seq<OwnerModel>, FilterParseError>
    decreases owners.len(),
{
    if owners.len() == 0 {
        Ok(Seq::empty())
    } else {
        match owner_filters_of(owners.drop_last(), files) {
            Err(e) => Err(e),
            Ok(ms) => match owner_filter_of(owners.last(), files_for(files, owners.len() - 1)) {
                Err(e) => Err(e),
                Ok(m) => Ok(ms.push(m)),
            },
        }
    }
}

proof fn lemma_owner_filters_fail(
    owners: Seq<Seq<char>>,
    files: Seq<Seq<Option<Seq<char>>>>,
    k: int,
)
    requires
        0 <= k <= owners.len(),
        owner_filters_of(owners.subrange(0, k), files) is Err,
    ensures
        owner_filters_of(owners, files) == owner_filters_of(owners.subrange(0, k), files),
    decreases owners.len() - k,
{
    if k == owners.len() {
        assert(owners.subrange(0, k) =~= owners);
    } else {
        assert(owners.subrange(0, k + 1).drop_last() =~= owners.subrange(0, k));
        lemma_owner_filters_fail(owners, files, k + 1);
    }
}

pub open spec fn owner_models(v: Seq<OwnerFilter>) -> Seq<OwnerModel> {
    v.map_values(|f: OwnerFilter| f.model())
}

impl AccountFilter {
    /// Compiles address arguments (each a comma-separated list), the content of an
    /// address file (one address per line) and owner specifications. `memcmp_files[k]`
    /// holds the contents of the files named by `owners[k]` (see
    /// `OwnerFilter::memcmpfile_paths`).
    pub fn new(
        pubkeys: &Vec<String>,
        pubkeyfile: &Option<String>,
        owners: &Vec<String>,
        memcmp_files: &Vec<Vec<Option<String>>>,
    ) -> (r: Result<Self, FilterParseError>)
        ensures
            match owner_filters_of(strings_view(owners@), file_lists_view(memcmp_files@)) {
                Ok(ms) => r is Ok && owner_models(r->Ok_0.owner_filters@) == ms
                    && strings_view(r->Ok_0.pubkey_filters@) == pubkey_list(
                    strings_view(pubkeys@),
                    match pubkeyfile {
                        Some(c) => Some(c@),
                        None => None,
                    },
                ),
                Err(e) => r is Err && r->Err_0 == e,
            },
    {
        let ghost pks = strings_view(pubkeys@);
        let mut ids: Vec<String> = Vec::new();
        let mut i: usize = 0;
        assert(pks.subrange(0, 0) =~= Seq::<Seq<char>>::empty());
        assert(strings_view(ids@) =~= Seq::<Seq<char>>::empty());
        while i < pubkeys.len()
            invariant
                i <= pubkeys@.len(),
                pks == strings_view(pubkeys@),
                strings_view(ids@) == listed_pubkeys(pks.subrange(0, i as int)),
            decreases pubkeys@.len() - i,
        {
            let mut parts = split_text(pubkeys[i].as_str(), ',');
            let ghost before = ids@;
            let ghost pv = parts@;
            ids.append(&mut parts);
            let ghost pre = pks.subrange(0, i as int + 1);
            assert(pre.drop_last() =~= pks.subrange(0, i as int));
            assert(strings_view(pv) =~= split_on(pre.last(), ','));
            assert(strings_view(ids@) =~= strings_view(before) + strings_view(pv));
            i += 1;
        }
        assert(pks.subrange(0, i as int) =~= pks);
        let ghost listed = strings_view(ids@);
        match pubkeyfile {
            None => {},
            Some(content) => {
                let lines = split_text(content.as_str(), '\n');
                let ghost ls = split_on(content@, '\n');
                let mut j: usize = 0;
                assert(ls.subrange(0, 0) =~= Seq::<Seq<char>>::empty());
                assert(strings_view(ids@) =~= listed + file_pubkeys(ls.subrange(0, 0)));
                while j < lines.len()
                    invariant
                        j <= lines@.len(),
                        ls == split_on(content@, '\n'),
                        lines@.len() == ls.len(),
                        forall|k: int| 0 <= k < lines@.len() ==> (#[trigger] lines@[k])@ == ls[k],
                        strings_view(ids@) == listed + file_pubkeys(ls.subrange(0, j as int)),
                    decreases lines@.len() - j,
                {
                    let t = trim_text(lines[j].as_str());
                    let ghost pre = ls.subrange(0, j as int + 1);
                    assert(pre.drop_last() =~= ls.subrange(0, j as int));
                    assert(pre.last() == lines@[j as int]@);
                    if t.as_str().unicode_len() != 0 {
                        let ghost before = ids@;
                        ids.push(t);
                        assert(strings_view(ids@) =~= strings_view(before).push(t@));
                    }
                    j += 1;
                }
                assert(ls.subrange(0, j as int) =~= ls);
            },
        }
        assert(strings_view(ids@) =~= pubkey_list(
            pks,
            match pubkeyfile {
                Some(c) => Some(c@),
                None => None,
            },
        ));
        let ghost os = strings_view(owners@);
        let ghost fs = file_lists_view(memcmp_files@);
        let no_files: Vec<Option<String>> = Vec::new();
        let mut filters: Vec<OwnerFilter> = Vec::new();
        let mut k: usize = 0;
        assert(os.subrange(0, 0) =~= Seq::<Seq<char>>::empty());
        assert(owner_models(filters@) =~= Seq::<OwnerModel>::empty());
        while k < owners.len()
            invariant
                k <= owners@.len(),
                os == strings_view(owners@),
                fs == file_lists_view(memcmp_files@),
                no_files@.len() == 0,
                owner_filters_of(os.subrange(0, k as int), fs) == Ok::<
                    Seq<OwnerModel>,
                    FilterParseError,
                >(owner_models(filters@)),
            decreases owners@.len() - k,
        {
            let files = if k < memcmp_files.len() {
                &memcmp_files[k]
            } else {
                &no_files
            };
            assert(texts_view(files@) =~= files_for(fs, k as int));
            let ghost pre = os.subrange(0, k as int + 1);
            assert(pre.drop_last() =~= os.subrange(0, k as int));
            assert(pre.last() == owners@[k as int]@);
            match OwnerFilter::new(&owners[k], files) {
                Err(e) => {
                    proof {
                        lemma_owner_filters_fail(os, fs, k as int + 1);
                    }
                    return Err(e);
                },
                Ok(f) => {
                    let ghost before = filters@;
                    filters.push(f);
                    assert(owner_models(filters@) =~= owner_models(before).push(f.model()));
                },
            }
            k += 1;
        }
        assert(os.subrange(0, k as int) =~= os);
        Ok(AccountFilter { pubkey_filters: ids, owner_filters: filters })
    }
}

/// A second `size:` option is refused as a duplicate, whatever the two values are:
/// neither the first nor the last one is kept.
pub proof fn law_second_size_option_refused(
    st: OptionsModel,
    o: Seq<char>,
    files: Seq<Option<Seq<char>>>,
)
    requires
        st.size_filter is Some,
        is_size_option(o),
        decimal_value(o.subrange(5, o.len() as int)) <= u64::MAX,
    ensures
        option_step(st, o, files) == Err::<OptionsModel, FilterParseError>(
            FilterParseError::MultipleSizeFilter,
        ),
{
}

/// A line of a file of 32-byte values that decodes to another length makes the whole
/// file refused; it is not skipped.
pub proof fn law_wrong_length_line_refused(content: Seq<char>, k: int)
    requires
        0 <= k < split_on(content, '\n').len(),
        trimmed(split_on(content, '\n')[k]).len() > 0,
        digest_line(trimmed(split_on(content, '\n')[k])) is Some,
        digest_line(trimmed(split_on(content, '\n')[k]))->0.len() != 32,
    ensures
        file_digests(content) is None,
{
    let lines = split_on(content, '\n');
    let pre = lines.subrange(0, k + 1);
    assert(pre.drop_last() =~= lines.subrange(0, k));
    assert(digest_lines(pre) is None);
    lemma_digest_lines_fail(lines, k + 1);
}

} // verus!
