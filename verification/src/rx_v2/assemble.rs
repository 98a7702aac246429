//! Putting the payload together from decoded codewords.

use std::collections::HashMap;

use vstd::prelude::*;

use crate::app_header::AppHeader;
use crate::raptorq_codec;

verus! {

/// The payload of `file_size` bytes as far as source codewords are there, with zeros
/// in place of the others.
pub open spec fn zero_filled(words: Map<u32, Seq<u8>>, file_size: int, k_bytes: int) -> Seq<u8> {
    Seq::new(
        file_size as nat,
        |i: int|
            if words.dom().contains((i / k_bytes) as u32) {
                words[(i / k_bytes) as u32][i % k_bytes]
            } else {
                0u8
            },
    )
}

/// Numbers in rising order.
pub open spec fn rising(keys: Seq<u32>) -> bool {
    forall|i: int, j: int| 0 <= i < j < keys.len() ==> keys[i] < keys[j]
}

/// The numbers of all codewords in rising order.
pub open spec fn lists_numbers(keys: Seq<u32>, words: Map<u32, Seq<u8>>) -> bool {
    &&& rising(keys)
    &&& forall|esi: u32| #[trigger] keys.contains(esi) <==> words.dom().contains(esi)
}

/// Codewords one behind the other.
pub open spec fn joined(keys: Seq<u32>, words: Map<u32, Seq<u8>>) -> Seq<u8>
    decreases keys.len(),
{
    if keys.len() == 0 {
        Seq::empty()
    } else {
        joined(keys.drop_last(), words) + words[keys.last()]
    }
}

/// At most `limit` bytes from the front.
pub open spec fn limited(bytes: Seq<u8>, limit: Option<usize>) -> Seq<u8> {
    match limit {
        Some(n) => if bytes.len() <= n {
            bytes
        } else {
            bytes.take(n as int)
        },
        None => bytes,
    }
}

/// The session header describes codewords of `k_bytes` in one source block.
pub open spec fn header_fits(h: AppHeader, k_bytes: int) -> bool {
    &&& h.t_bytes == k_bytes
    &&& raptorq_codec::fits_one_block(h.file_size as int, k_bytes)
}

/// Whether a session header describes codewords of `k_bytes` in one source block.
pub fn check_header(h: &AppHeader, k_bytes: usize) -> (fits: bool)
    ensures
        fits == header_fits(*h, k_bytes as int),
        fits ==> h.file_size + k_bytes <= usize::MAX,
{
    if h.t_bytes as usize != k_bytes || h.t_bytes == 0 {
        return false;
    }
    proof {
        lemma_fitting_size(h.file_size as int, k_bytes as int);
    }
    if h.file_size as u64 + k_bytes as u64 > usize::MAX as u64 {
        return false;
    }
    raptorq_codec::k_from_payload(h.file_size as usize, k_bytes) <= raptorq_codec::MAX_K
}

/// A payload of small codewords that fits one source block is not large.
proof fn lemma_fitting_size(file_size: int, k_bytes: int)
    requires
        1 <= k_bytes <= 255,
        file_size >= 0,
    ensures
        raptorq_codec::fits_one_block(file_size, k_bytes) ==> file_size <= 56403 * 255,
{
    let raw = (file_size + k_bytes - 1) / k_bytes;
    vstd::arithmetic::div_mod::lemma_fundamental_div_mod(file_size + k_bytes - 1, k_bytes);
    if raw <= 56403 {
        assert(k_bytes * raw <= 255 * 56403) by (nonlinear_arith)
            requires
                0 <= k_bytes <= 255,
                raw <= 56403,
        ;
    }
}

/// What assembling gives: with a session header, the fountain-decoded payload, or the
/// source codewords with gaps of zeros, which is also what a header gives that does not
/// describe the codewords; without a header, all codewords in the order of their numbers,
/// at most `limit` bytes.
pub open spec fn is_assembly(
    out: Seq<u8>,
    app_header: Option<AppHeader>,
    words: Map<u32, Seq<u8>>,
    k_bytes: int,
    limit: Option<usize>,
) -> bool {
    match app_header {
        Some(h) => if header_fits(h, k_bytes) {
            exists|decoded: Option<Vec<u8>>|
                {
                    &&& #[trigger] raptorq_codec::is_decoding(
                        decoded,
                        words,
                        h.file_size as int,
                        k_bytes,
                    )
                    &&& out == match decoded {
                        Some(p) => p@,
                        None => zero_filled(words, h.file_size as int, k_bytes),
                    }
                }
        } else {
            out == zero_filled(words, h.file_size as int, k_bytes)
        },
        None => exists|keys: Seq<u32>| #[trigger]
            lists_numbers(keys, words) && out == limited(joined(keys, words), limit),
    }
}

fn fill_gaps(words: &HashMap<u32, Vec<u8>>, file_size: u32, k_bytes: usize) -> (out: Vec<u8>)
    requires
        k_bytes >= 1,
        file_size <= usize::MAX,
        raptorq_codec::well_sized(raptorq_codec::packet_bytes(words@), k_bytes as int),
    ensures
        out@ == zero_filled(
            raptorq_codec::packet_bytes(words@),
            file_size as int,
            k_bytes as int,
        ),
{
    broadcast use vstd::std_specs::hash::group_hash_axioms;

    let ghost map = raptorq_codec::packet_bytes(words@);
    let n: usize = file_size as usize;
    let mut out: Vec<u8> = Vec::new();
    let mut i: usize = 0;
    while i < n
        invariant
            i <= n,
            n == file_size,
            k_bytes >= 1,
            map == raptorq_codec::packet_bytes(words@),
            raptorq_codec::well_sized(map, k_bytes as int),
            out@ == zero_filled(map, n as int, k_bytes as int).take(i as int),
        decreases n - i,
    {
        let at: usize = i / k_bytes;
        let off: usize = i % k_bytes;
        proof {
            assert(0 <= at <= i) by (nonlinear_arith)
                requires
                    at == i / k_bytes,
                    k_bytes >= 1,
                    i >= 0,
            ;
        }
        let esi: u32 = at as u32;
        let byte: u8 = match words.get(&esi) {
            Some(bytes) => {
                proof {
                    assert(map.dom().contains(esi));
                    assert(map[esi] == bytes@);
                }
                bytes[off]
            },
            None => {
                assert(!map.dom().contains(esi));
                0
            },
        };
        out.push(byte);
        assert(zero_filled(map, n as int, k_bytes as int).take(i + 1) =~= zero_filled(
            map,
            n as int,
            k_bytes as int,
        ).take(i as int).push(byte));
        i = i + 1;
    }
    assert(zero_filled(map, n as int, k_bytes as int).take(i as int) =~= zero_filled(
        map,
        n as int,
        k_bytes as int,
    ));
    out
}

/// The entry with the smallest number above `last`.
fn next_entry(list: &Vec<(u32, Vec<u8>)>, last: Option<u32>) -> (at: Option<usize>)
    ensures
        at matches Some(i) ==> {
            &&& i < list@.len()
            &&& above(list@[i as int].0, last)
            &&& forall|j: int|
                0 <= j < list@.len() && above((#[trigger] list@[j]).0, last) ==> list@[i as int].0
                    <= list@[j].0
        },
        at is None ==> forall|j: int|
            0 <= j < list@.len() ==> !above((#[trigger] list@[j]).0, last),
{
    let mut at: Option<usize> = None;
    let mut i: usize = 0;
    while i < list.len()
        invariant
            i <= list@.len(),
            at matches Some(b) ==> {
                &&& b < i
                &&& above(list@[b as int].0, last)
                &&& forall|j: int|
                    0 <= j < i && above((#[trigger] list@[j]).0, last) ==> list@[b as int].0
                        <= list@[j].0
            },
            at is None ==> forall|j: int| 0 <= j < i ==> !above((#[trigger] list@[j]).0, last),
        decreases list@.len() - i,
    {
        let key: u32 = list[i].0;
        let later: bool = match last {
            Some(l) => key > l,
            None => true,
        };
        if later {
            match at {
                Some(b) => {
                    if key < list[b].0 {
                        at = Some(i);
                    }
                },
                None => {
                    at = Some(i);
                },
            }
        }
        i = i + 1;
    }
    at
}

/// A number is above the last one, or there is no last one.
pub open spec fn above(key: u32, last: Option<u32>) -> bool {
    match last {
        Some(l) => key > l,
        None => true,
    }
}

fn join_in_order(words: &HashMap<u32, Vec<u8>>) -> (out: Vec<u8>)
    ensures
        exists|keys: Seq<u32>| #[trigger]
            lists_numbers(keys, raptorq_codec::packet_bytes(words@)) && out@ == joined(
                keys,
                raptorq_codec::packet_bytes(words@),
            ),
{
    let list = raptorq_codec::entries(words);
    let ghost map = raptorq_codec::packet_bytes(words@);
    let mut out: Vec<u8> = Vec::new();
    let mut last: Option<u32> = None;
    let ghost mut keys: Seq<u32> = Seq::empty();
    let mut done: bool = false;
    while !done
        invariant
            map == raptorq_codec::packet_bytes(words@),
            map.dom() == words@.dom(),
            map.dom().finite(),
            forall|i: int|
                0 <= i < list@.len() ==> map.dom().contains((#[trigger] list@[i]).0)
                    && map[list@[i].0] == list@[i].1@,
            forall|esi: u32| #[trigger]
                map.dom().contains(esi) ==> exists|i: int|
                    0 <= i < list@.len() && (#[trigger] list@[i]).0 == esi,
            rising(keys),
            last is None <==> keys.len() == 0,
            last matches Some(l) ==> keys.last() == l,
            forall|i: int| 0 <= i < keys.len() ==> map.dom().contains(#[trigger] keys[i]),
            forall|esi: u32| #[trigger]
                map.dom().contains(esi) && !above(esi, last) ==> keys.contains(esi),
            out@ == joined(keys, map),
            done ==> forall|j: int| 0 <= j < list@.len() ==> !above((#[trigger] list@[j]).0, last),
            keys.to_set().subset_of(map.dom()),
            keys.no_duplicates(),
            keys.len() <= map.dom().len(),
        decreases
                map.dom().len() - keys.len(),
                (if done {
                    0int
                } else {
                    1
                }),
    {
        match next_entry(&list, last) {
            Some(i) => {
                let key: u32 = list[i].0;
                let ghost before = keys;
                out.extend_from_slice(list[i].1.as_slice());
                proof {
                    keys = keys.push(key);
                    assert(keys.drop_last() =~= before);
                    assert(rising(keys));
                    assert forall|esi: u32| #[trigger]
                        map.dom().contains(esi) && !above(esi, Some(key)) implies keys.contains(
                        esi,
                    ) by {
                        if above(esi, last) {
                            let j = choose|j: int| 0 <= j < list@.len() && (#[trigger] list@[j]).0
                                == esi;
                            assert(esi == key);
                            assert(keys[before.len() as int] == key);
                        } else {
                            assert(before.contains(esi));
                            let x = choose|x: int| 0 <= x < before.len() && before[x] == esi;
                            assert(keys[x] == esi);
                        }
                    }
                    assert(map.dom().contains(key));
                    keys.unique_seq_to_set();
                    vstd::set_lib::lemma_len_subset(keys.to_set(), map.dom());
                    assert(out@ =~= joined(keys, map));
                }
                last = Some(key);
            },
            None => {
                done = true;
            },
        }
    }
    proof {
        assert forall|esi: u32| #[trigger] keys.contains(esi) <==> map.dom().contains(esi) by {
            if map.dom().contains(esi) {
                let j = choose|j: int| 0 <= j < list@.len() && (#[trigger] list@[j]).0 == esi;
                assert(!above(list@[j].0, last));
            }
        }
        assert(lists_numbers(keys, map));
    }
    out
}

/// Put the payload together from decoded codewords of `k_bytes`.
pub fn assemble(
    app_header: &Option<AppHeader>,
    words: &HashMap<u32, Vec<u8>>,
    k_bytes: usize,
    limit: Option<usize>,
) -> (out: Vec<u8>)
    requires
        1 <= k_bytes <= u16::MAX,
        raptorq_codec::well_sized(raptorq_codec::packet_bytes(words@), k_bytes as int),
    ensures
        is_assembly(
            out@,
            *app_header,
            raptorq_codec::packet_bytes(words@),
            k_bytes as int,
            limit,
        ),
{
    match app_header {
        Some(h) => {
            if !check_header(h, k_bytes) {
                return fill_gaps(words, h.file_size, k_bytes);
            }
            let decoded = raptorq_codec::try_decode(words, h.file_size, k_bytes as u16);
            assert(raptorq_codec::is_decoding(
                decoded,
                raptorq_codec::packet_bytes(words@),
                h.file_size as int,
                k_bytes as int,
            ));
            match decoded {
                Some(payload) => payload,
                None => fill_gaps(words, h.file_size, k_bytes),
            }
        },
        None => {
            let mut out = join_in_order(words);
            let ghost all = out@;
            match limit {
                Some(n) => {
                    out.truncate(n);
                },
                None => {},
            }
            proof {
                let map = raptorq_codec::packet_bytes(words@);
                let keys = choose|keys: Seq<u32>| #[trigger]
                    lists_numbers(keys, map) && all == joined(keys, map);
                assert(out@ =~= limited(joined(keys, map), limit));
            }
            out
        },
    }
}

/// A payload is put together without a loss once all its source codewords are there,
/// whatever other codewords of it are there too.
pub proof fn law_complete_payload_is_assembled(
    data: Seq<u8>,
    h: AppHeader,
    words: Map<u32, Seq<u8>>,
    k_bytes: int,
    limit: Option<usize>,
    out: Seq<u8>,
)
    requires
        header_fits(h, k_bytes),
        h.file_size == data.len(),
        raptorq_codec::packets_of(words, raptorq_codec::filled(data, k_bytes), k_bytes as nat),
        raptorq_codec::has_source(
            words,
            raptorq_codec::source_count(data.len() as int, k_bytes) as nat,
        ),
        is_assembly(out, Some(h), words, k_bytes, limit),
    ensures
        out == data,
{
    let decoded = choose|decoded: Option<Vec<u8>>|
        {
            &&& #[trigger] raptorq_codec::is_decoding(decoded, words, h.file_size as int, k_bytes)
            &&& out == match decoded {
                Some(p) => p@,
                None => zero_filled(words, h.file_size as int, k_bytes),
            }
        };
    raptorq_codec::law_packets_give_their_payload(data, k_bytes, words, decoded);
}

/// A payload that cannot be decoded in full is given as far as it is there: its codewords
/// stand at their places, and every byte of a missing one is zero.
pub proof fn law_codewords_stand_at_their_places(
    words: Map<u32, Seq<u8>>,
    file_size: int,
    k_bytes: int,
    esi: u32,
    j: int,
)
    requires
        k_bytes >= 1,
        file_size >= 0,
        0 <= j < k_bytes,
        esi * k_bytes + j < file_size,
    ensures
        zero_filled(words, file_size, k_bytes).len() == file_size,
        zero_filled(words, file_size, k_bytes)[esi * k_bytes + j] == if words.dom().contains(esi) {
            words[esi][j]
        } else {
            0
        },
{
    assert(esi * k_bytes >= 0) by (nonlinear_arith)
        requires
            esi >= 0,
            k_bytes >= 1,
    ;
    vstd::arithmetic::div_mod::lemma_fundamental_div_mod_converse(
        esi * k_bytes + j,
        k_bytes,
        esi as int,
        j,
    );
}

/// With a session header, what comes out has the size that the header names, and where it
/// is not the decoded payload it shows the codewords at their places.
pub proof fn law_assembly_has_the_size_of_the_header(
    out: Seq<u8>,
    h: AppHeader,
    words: Map<u32, Seq<u8>>,
    k_bytes: int,
    limit: Option<usize>,
    esi: u32,
    j: int,
)
    requires
        k_bytes >= 1,
        is_assembly(out, Some(h), words, k_bytes, limit),
        0 <= j < k_bytes,
        esi * k_bytes + j < h.file_size,
    ensures
        out.len() == h.file_size,
        h.t_bytes != k_bytes ==> out[esi * k_bytes + j] == if words.dom().contains(esi) {
            words[esi][j]
        } else {
            0
        },
{
    law_codewords_stand_at_their_places(words, h.file_size as int, k_bytes, esi, j);
}

/// Without a session header all codewords follow one another by rising number, up to the
/// limit.
pub proof fn law_codewords_follow_by_number(
    out: Seq<u8>,
    words: Map<u32, Seq<u8>>,
    k_bytes: int,
    limit: Option<usize>,
    keys: Seq<u32>,
    r: int,
    j: int,
)
    requires
        k_bytes >= 1,
        raptorq_codec::well_sized(words, k_bytes),
        is_assembly(out, None, words, k_bytes, limit),
        forall|a: int, b: int| 0 <= a < b < keys.len() ==> keys[a] < keys[b],
        forall|esi: u32| #[trigger] keys.contains(esi) <==> words.dom().contains(esi),
        0 <= r < keys.len(),
        0 <= j < k_bytes,
    ensures
        limit is None ==> out.len() == keys.len() * k_bytes,
        limit matches Some(n) ==> out.len() == if keys.len() * k_bytes <= n {
            keys.len() * k_bytes
        } else {
            n as int
        },
        r * k_bytes + j < out.len() ==> out[r * k_bytes + j] == words[keys[r]][j],
{
    let got = choose|got: Seq<u32>| #[trigger]
        lists_numbers(got, words) && out == limited(joined(got, words), limit);
    assert(lists_numbers(keys, words));
    lemma_numbers_are_listed_once(got, keys, words);
    assert forall|i: int| 0 <= i < keys.len() implies words[#[trigger] keys[i]].len()
        == k_bytes by {
        assert(keys.contains(keys[i]));
        assert(words.dom().contains(keys[i]));
    }
    lemma_joined_at(keys, words, k_bytes, r, j);
}

/// There is one list of the numbers in rising order.
proof fn lemma_numbers_are_listed_once(a: Seq<u32>, b: Seq<u32>, words: Map<u32, Seq<u8>>)
    requires
        lists_numbers(a, words),
        lists_numbers(b, words),
    ensures
        a == b,
    decreases a.len(),
{
    if a.len() == 0 {
        if b.len() > 0 {
            assert(b.contains(b[0]));
            assert(a.contains(b[0]));
        }
        assert(a =~= b);
    } else {
        assert(a.contains(a.last()));
        assert(b.contains(a.last()));
        assert(b.len() > 0);
        assert(b.contains(b.last()));
        assert(a.contains(b.last()));
        let i = choose|i: int| 0 <= i < b.len() && b[i] == a.last();
        let j = choose|j: int| 0 <= j < a.len() && a[j] == b.last();
        assert(a.last() == b.last());
        let fewer = words.remove(a.last());
        assert(lists_numbers(a.drop_last(), fewer)) by {
            lemma_without_last(a, words);
        }
        assert(lists_numbers(b.drop_last(), fewer)) by {
            lemma_without_last(b, words);
        }
        lemma_numbers_are_listed_once(a.drop_last(), b.drop_last(), fewer);
        assert(a =~= a.drop_last().push(a.last()));
        assert(b =~= b.drop_last().push(b.last()));
    }
}

proof fn lemma_without_last(a: Seq<u32>, words: Map<u32, Seq<u8>>)
    requires
        a.len() > 0,
        lists_numbers(a, words),
    ensures
        lists_numbers(a.drop_last(), words.remove(a.last())),
{
    let shorter = a.drop_last();
    let fewer = words.remove(a.last());
    assert forall|esi: u32| #[trigger] shorter.contains(esi) <==> fewer.dom().contains(esi) by {
        if shorter.contains(esi) {
            let i = choose|i: int| 0 <= i < shorter.len() && shorter[i] == esi;
            assert(a[i] == esi);
            assert(a.contains(esi));
            assert(a[i] < a[a.len() - 1]);
        }
        if fewer.dom().contains(esi) {
            assert(a.contains(esi));
            let i = choose|i: int| 0 <= i < a.len() && a[i] == esi;
            assert(i < a.len() - 1);
            assert(shorter[i] == esi);
        }
    }
}

proof fn lemma_joined_at(keys: Seq<u32>, words: Map<u32, Seq<u8>>, k: int, r: int, j: int)
    requires
        k >= 1,
        forall|i: int| 0 <= i < keys.len() ==> words[#[trigger] keys[i]].len() == k,
        0 <= r < keys.len(),
        0 <= j < k,
    ensures
        joined(keys, words).len() == keys.len() * k,
        0 <= r * k + j < keys.len() * k,
        joined(keys, words)[r * k + j] == words[keys[r]][j],
    decreases keys.len(),
{
    let n = keys.len() as int;
    let shorter = keys.drop_last();
    assert(n * k == (n - 1) * k + k) by (nonlinear_arith);
    assert(0 <= r * k && r * k + k <= n * k) by (nonlinear_arith)
        requires
            0 <= r < n,
            k >= 1,
    ;
    assert forall|i: int| 0 <= i < shorter.len() implies words[#[trigger] shorter[i]].len() == k by {
        assert(words[keys[i]].len() == k);
    }
    if n == 1 {
        assert(joined(shorter, words).len() == 0);
        assert(r * k == 0) by (nonlinear_arith)
            requires
                r == 0,
        ;
        assert((n - 1) * k == 0) by (nonlinear_arith)
            requires
                n == 1,
        ;
    } else if r < n - 1 {
        lemma_joined_at(shorter, words, k, r, j);
        assert(r * k + k <= (n - 1) * k) by (nonlinear_arith)
            requires
                r + 1 <= n - 1,
                k >= 1,
        ;
    } else {
        lemma_joined_at(shorter, words, k, 0, 0);
    }
}

/// With fewer codewords than source packets nothing can be decoded: each codeword then stands
/// at its place, and the rest is zero.
pub proof fn law_few_codewords_stand_at_their_places(
    out: Seq<u8>,
    h: AppHeader,
    words: Map<u32, Seq<u8>>,
    k_bytes: int,
    limit: Option<usize>,
    esi: u32,
    j: int,
)
    requires
        k_bytes >= 1,
        is_assembly(out, Some(h), words, k_bytes, limit),
        words.dom().len() * k_bytes < h.file_size,
        0 <= j < k_bytes,
        esi * k_bytes + j < h.file_size,
    ensures
        out[esi * k_bytes + j] == if words.dom().contains(esi) {
            words[esi][j]
        } else {
            0
        },
{
    law_codewords_stand_at_their_places(words, h.file_size as int, k_bytes, esi, j);
    let k = raptorq_codec::source_count(h.file_size as int, k_bytes);
    let raw = (h.file_size + k_bytes - 1) / k_bytes;
    vstd::arithmetic::div_mod::lemma_fundamental_div_mod(h.file_size + k_bytes - 1, k_bytes);
    let n = words.dom().len() as int;
    assert(n < raw) by (nonlinear_arith)
        requires
            n * k_bytes < h.file_size,
            h.file_size + k_bytes - 1 == k_bytes * raw + (h.file_size + k_bytes - 1) % k_bytes,
            0 <= (h.file_size + k_bytes - 1) % k_bytes < k_bytes,
    ;
}

} // verus!
