//! The cache key of a query: a token that is the same for the same query.
//!
//! The fields of the query are fed to a hasher one after the other, each in a
//! form that shows where it ends, and the token is the hash in decimal
//! notation between double quotes.

use crate::text::{decimal, lemma_same_bytes_same_chars, push_decimal, str_eq};
use std::collections::hash_map::DefaultHasher;
use std::hash::Hasher;
use vstd::prelude::*;
use vstd::std_specs::hash::*;
use vstd::string::*;

verus! {

/// The `count` lowest bytes of a number, the lowest first.
pub open spec fn low_bytes(value: nat, count: nat) -> Seq<u8>
    decreases count,
{
    if count == 0 {
        Seq::empty()
    } else {
        seq![(value % 256) as u8] + low_bytes(value / 256, (count - 1) as nat)
    }
}

/// What is fed to the hasher for a text: its UTF-8 bytes, then the byte
/// `0xff`, which no UTF-8 text holds.
pub open spec fn text_writes(text: Seq<char>) -> Seq<Seq<u8>> {
    seq![vstd::utf8::encode_utf8(text), seq![0xffu8]]
}

/// What is fed to the hasher for an optional text: the number 0 for none,
/// the number 1 and then the text for some.
pub open spec fn option_writes(text: Option<Seq<char>>) -> Seq<Seq<u8>> {
    match text {
        None => seq![low_bytes(0, 8)],
        Some(text) => seq![low_bytes(1, 8)] + text_writes(text),
    }
}

/// What is fed to the hasher for a flag: one byte, 1 for true and 0 for
/// false.
pub open spec fn flag_write(flag: bool) -> Seq<u8> {
    seq![if flag { 1u8 } else { 0u8 }]
}

/// Everything that is fed to the hasher for a query, in order: the text, the
/// result count in eight bytes, the bits of the weight in four bytes, the
/// family-friendly flag, the exclude list and the include list.
pub open spec fn etag_writes(
    query: Seq<char>,
    top_k: usize,
    alpha_bits: u32,
    family_friendly: bool,
    exclude: Option<Seq<char>>,
    include_list: Option<Seq<char>>,
) -> Seq<Seq<u8>> {
    text_writes(query) + seq![low_bytes(top_k as nat, 8)] + seq![low_bytes(alpha_bits as nat, 4)]
        + seq![flag_write(family_friendly)] + option_writes(exclude) + option_writes(include_list)
}

/// The token for a hash: the hash in decimal notation between double quotes.
pub open spec fn quoted(hash: u64) -> Seq<char> {
    seq!['"'] + decimal(hash as nat) + seq!['"']
}

/// The view of an optional string.
pub open spec fn option_view(text: Option<String>) -> Option<Seq<char>> {
    match text {
        Some(text) => Some(text@),
        None => None,
    }
}

/// The token of a query.
pub open spec fn etag_of(
    query: Seq<char>,
    top_k: usize,
    alpha_bits: u32,
    family_friendly: bool,
    exclude: Option<Seq<char>>,
    include_list: Option<Seq<char>>,
) -> Seq<char> {
    quoted(
        DefaultHasher::spec_finish(
            etag_writes(query, top_k, alpha_bits, family_friendly, exclude, include_list),
        ),
    )
}

/// The token is a function of the six values: queries that agree in every
/// field have the same token.
pub proof fn lemma_etag_deterministic(
    query: Seq<char>,
    top_k: usize,
    alpha_bits: u32,
    family_friendly: bool,
    exclude: Option<Seq<char>>,
    include_list: Option<Seq<char>>,
    other_query: Seq<char>,
    other_top_k: usize,
    other_alpha_bits: u32,
    other_family_friendly: bool,
    other_exclude: Option<Seq<char>>,
    other_include_list: Option<Seq<char>>,
)
    requires
        query == other_query,
        top_k == other_top_k,
        alpha_bits == other_alpha_bits,
        family_friendly == other_family_friendly,
        exclude == other_exclude,
        include_list == other_include_list,
    ensures
        etag_of(query, top_k, alpha_bits, family_friendly, exclude, include_list) == etag_of(
            other_query,
            other_top_k,
            other_alpha_bits,
            other_family_friendly,
            other_exclude,
            other_include_list,
        ),
{
}

/// The numbers that `count` bytes can hold are those below this limit.
pub open spec fn byte_limit(count: nat) -> nat
    decreases count,
{
    if count == 0 {
        1
    } else {
        256 * byte_limit((count - 1) as nat)
    }
}

/// Numbers that fit `count` bytes and have the same low bytes are the same.
pub proof fn lemma_low_bytes_injective(a: nat, b: nat, count: nat)
    requires
        a < byte_limit(count),
        b < byte_limit(count),
        low_bytes(a, count) == low_bytes(b, count),
    ensures
        a == b,
    decreases count,
{
    if count > 0 {
        let rest = (count - 1) as nat;
        assert(low_bytes(a, count)[0] == (a % 256) as u8);
        assert(low_bytes(b, count)[0] == (b % 256) as u8);
        assert(a % 256 == b % 256);
        assert(low_bytes(a, count).drop_first() =~= low_bytes(a / 256, rest));
        assert(low_bytes(b, count).drop_first() =~= low_bytes(b / 256, rest));
        lemma_low_bytes_injective(a / 256, b / 256, rest);
    }
}

/// The writes for two optional texts that start the same sequences are the
/// writes for the same optional text.
proof fn lemma_option_writes_injective(
    first: Option<Seq<char>>,
    second: Option<Seq<char>>,
    first_rest: Seq<Seq<u8>>,
    second_rest: Seq<Seq<u8>>,
)
    requires
        option_writes(first) + first_rest == option_writes(second) + second_rest,
    ensures
        first == second,
        first_rest == second_rest,
{
    let a = option_writes(first) + first_rest;
    let b = option_writes(second) + second_rest;
    assert(low_bytes(0, 8)[0] == 0u8);
    assert(low_bytes(1, 8)[0] == 1u8);
    assert(a[0] == option_writes(first)[0]);
    assert(b[0] == option_writes(second)[0]);
    assert(first is Some <==> second is Some);
    match (first, second) {
        (Some(x), Some(y)) => {
            assert(a[1] == option_writes(first)[1]);
            assert(b[1] == option_writes(second)[1]);
            lemma_same_bytes_same_chars(x, y);
            assert(first_rest =~= a.skip(3));
            assert(second_rest =~= b.skip(3));
        },
        _ => {
            assert(first_rest =~= a.skip(1));
            assert(second_rest =~= b.skip(1));
        },
    }
}

/// Two queries are fed to the hasher as the same writes only if they agree
/// in every field: no two different queries look the same to the hasher.
pub proof fn lemma_etag_writes_injective(
    query: Seq<char>,
    top_k: usize,
    alpha_bits: u32,
    family_friendly: bool,
    exclude: Option<Seq<char>>,
    include_list: Option<Seq<char>>,
    other_query: Seq<char>,
    other_top_k: usize,
    other_alpha_bits: u32,
    other_family_friendly: bool,
    other_exclude: Option<Seq<char>>,
    other_include_list: Option<Seq<char>>,
)
    requires
        etag_writes(query, top_k, alpha_bits, family_friendly, exclude, include_list)
            == etag_writes(
            other_query,
            other_top_k,
            other_alpha_bits,
            other_family_friendly,
            other_exclude,
            other_include_list,
        ),
    ensures
        query == other_query,
        top_k == other_top_k,
        alpha_bits == other_alpha_bits,
        family_friendly == other_family_friendly,
        exclude == other_exclude,
        include_list == other_include_list,
{
    let a = etag_writes(query, top_k, alpha_bits, family_friendly, exclude, include_list);
    let b = etag_writes(
        other_query,
        other_top_k,
        other_alpha_bits,
        other_family_friendly,
        other_exclude,
        other_include_list,
    );
    assert(a[0] == vstd::utf8::encode_utf8(query));
    assert(b[0] == vstd::utf8::encode_utf8(other_query));
    lemma_same_bytes_same_chars(query, other_query);
    assert(a[2] == low_bytes(top_k as nat, 8));
    assert(b[2] == low_bytes(other_top_k as nat, 8));
    assert(byte_limit(8) == 0x1_0000_0000_0000_0000) by {
        reveal_with_fuel(byte_limit, 9);
    }
    lemma_low_bytes_injective(top_k as nat, other_top_k as nat, 8);
    assert(a[3] == low_bytes(alpha_bits as nat, 4));
    assert(b[3] == low_bytes(other_alpha_bits as nat, 4));
    assert(byte_limit(4) == 0x1_0000_0000) by {
        reveal_with_fuel(byte_limit, 5);
    }
    lemma_low_bytes_injective(alpha_bits as nat, other_alpha_bits as nat, 4);
    assert(a[4] == flag_write(family_friendly));
    assert(b[4] == flag_write(other_family_friendly));
    assert(flag_write(family_friendly)[0] == flag_write(other_family_friendly)[0]);
    assert(a.skip(5) =~= option_writes(exclude) + option_writes(include_list));
    assert(b.skip(5) =~= option_writes(other_exclude) + option_writes(other_include_list));
    lemma_option_writes_injective(
        exclude,
        other_exclude,
        option_writes(include_list),
        option_writes(other_include_list),
    );
    assert(option_writes(include_list) + Seq::<Seq<u8>>::empty() == option_writes(other_include_list)
        + Seq::<Seq<u8>>::empty());
    lemma_option_writes_injective(
        include_list,
        other_include_list,
        Seq::<Seq<u8>>::empty(),
        Seq::<Seq<u8>>::empty(),
    );
}

/// Feeds the `count` lowest bytes of a number to the hasher.
fn write_low_bytes(hasher: &mut DefaultHasher, value: u64, count: usize)
    ensures
        final(hasher)@ == old(hasher)@.push(low_bytes(value as nat, count as nat)),
{
    let mut bytes: Vec<u8> = Vec::new();
    let mut rest: u64 = value;
    let mut i: usize = 0;
    while i < count
        invariant
            i <= count,
            bytes@ + low_bytes(rest as nat, (count - i) as nat) == low_bytes(
                value as nat,
                count as nat,
            ),
        decreases count - i,
    {
        let ghost before = bytes@;
        bytes.push((rest % 256) as u8);
        assert(bytes@ + low_bytes((rest / 256) as nat, (count - i - 1) as nat) =~= before
            + low_bytes(rest as nat, (count - i) as nat));
        rest = rest / 256;
        i += 1;
    }
    assert(bytes@ =~= low_bytes(value as nat, count as nat));
    hasher.write(bytes.as_slice());
}

/// Feeds a text to the hasher.
fn write_text(hasher: &mut DefaultHasher, text: &str)
    ensures
        final(hasher)@ == old(hasher)@ + text_writes(text@),
{
    let ghost before = hasher@;
    hasher.write(text.as_bytes());
    let mut end: Vec<u8> = Vec::new();
    end.push(0xffu8);
    assert(end@ =~= seq![0xffu8]);
    hasher.write(end.as_slice());
    assert(hasher@ =~= before + text_writes(text@));
}

/// Feeds an optional text to the hasher.
fn write_option(hasher: &mut DefaultHasher, text: &Option<String>)
    ensures
        final(hasher)@ == old(hasher)@ + option_writes(option_view(*text)),
{
    let ghost before = hasher@;
    match text {
        None => {
            write_low_bytes(hasher, 0, 8);
            assert(hasher@ =~= before + option_writes(None));
        },
        Some(text) => {
            write_low_bytes(hasher, 1, 8);
            write_text(hasher, text.as_str());
            assert(hasher@ =~= before + option_writes(Some(text@)));
        },
    }
}

/// The cache key of a query.
///
/// The token depends on nothing but the six values, the weight by the bits
/// of its floating-point representation: the same values always give the
/// same token.
pub fn generate_etag(
    query: &str,
    top_k: usize,
    alpha_bits: u32,
    family_friendly: bool,
    exclude: &Option<String>,
    include_list: &Option<String>,
) -> (etag: String)
    ensures
        etag@ == etag_of(
            query@,
            top_k,
            alpha_bits,
            family_friendly,
            option_view(*exclude),
            option_view(*include_list),
        ),
{
    let mut hasher = DefaultHasher::new();
    write_text(&mut hasher, query);
    write_low_bytes(&mut hasher, top_k as u64, 8);
    write_low_bytes(&mut hasher, alpha_bits as u64, 4);
    let mut flag: Vec<u8> = Vec::new();
    flag.push(if family_friendly { 1u8 } else { 0u8 });
    assert(flag@ =~= flag_write(family_friendly));
    hasher.write(flag.as_slice());
    write_option(&mut hasher, exclude);
    write_option(&mut hasher, include_list);
    assert(hasher@ =~= etag_writes(
        query@,
        top_k,
        alpha_bits,
        family_friendly,
        option_view(*exclude),
        option_view(*include_list),
    ));
    let hash = hasher.finish();
    let mut etag = String::new();
    etag.push('"');
    push_decimal(&mut etag, hash);
    etag.push('"');
    assert(etag@ =~= quoted(hash));
    etag
}

/// Whether the token that a caller already holds is the token of the
/// query, so that nothing has to be sent again.
pub fn matches_etag(held: Option<&str>, etag: &str) -> (same: bool)
    ensures
        same == (held matches Some(token) && token@ == etag@),
{
    match held {
        Some(token) => str_eq(token, etag),
        None => false,
    }
}

} // verus!
