//! Reed-Solomon erasure coding of blocks.
//!
//! Each block is one shard of a code over GF(2^8), so that there are at most 256
//! data and parity blocks together. Levels:
//! ```text
//!   0 : no parity
//!   1 : one parity block per 16 data blocks
//!   2 : one per 8
//!   3 : one per 4
//! ```

use vstd::prelude::*;

use reed_solomon_erasure::galois_8::ReedSolomon;

verus! {

/// `n / d`, rounded up.
pub open spec fn ceil_div(n: int, d: int) -> int {
    (n + d - 1) / d
}

/// Parity blocks for `k` data blocks.
pub open spec fn parity_count(k: int, rs_level: u8) -> int {
    if rs_level == 1 {
        ceil_div(k, 16)
    } else if rs_level == 2 {
        ceil_div(k, 8)
    } else if rs_level == 3 {
        ceil_div(k, 4)
    } else {
        0
    }
}

/// Parity blocks for `k` data blocks.
pub fn parity_blocks_for(k: usize, rs_level: u8) -> (m: usize)
    ensures
        m == parity_count(k as int, rs_level),
        m <= k,
{
    match rs_level {
        1 => k / 16 + (if k % 16 == 0 { 0 } else { 1 }),
        2 => k / 8 + (if k % 8 == 0 { 0 } else { 1 }),
        3 => k / 4 + (if k % 4 == 0 { 0 } else { 1 }),
        _ => 0,
    }
}

/// Why blocks were not coded.
#[derive(Debug)]
pub enum RsError {
    UnknownLevel(u8),
    /// Data and parity blocks.
    TooManyShards(usize, usize),
    /// The fault that the code reports.
    Rse(String),
    /// Expected and given blocks.
    ShardCountMismatch(usize, usize),
    /// Data blocks, lost blocks and parity blocks.
    TooManyLosses(usize, usize, usize),
}

// ---------------------------------------------------------------------------
// The code
// ---------------------------------------------------------------------------

/// Contents of blocks.
pub open spec fn contents(blocks: Seq<Vec<u8>>) -> Seq<Seq<u8>> {
    Seq::new(blocks.len(), |i: int| blocks[i]@)
}

/// Contents of blocks of which some are lost.
pub open spec fn kept(shards: Seq<Option<Vec<u8>>>) -> Seq<Option<Seq<u8>>> {
    Seq::new(
        shards.len(),
        |i: int|
            match shards[i] {
                Some(v) => Some(v@),
                None => None,
            },
    )
}

/// Fault of a code with `k` data and `m` parity shards.
pub open spec fn size_fault(k: int, m: int) -> Option<Seq<char>> {
    if k == 0 {
        Some("TooFewDataShards"@)
    } else if m == 0 {
        Some("TooFewParityShards"@)
    } else if k + m > 256 {
        Some("TooManyShards"@)
    } else {
        None
    }
}

/// All shards have the size of the first.
pub open spec fn same_sizes(shards: Seq<Seq<u8>>) -> bool {
    forall|i: int| 0 <= i < shards.len() ==> (#[trigger] shards[i]).len() == shards[0].len()
}

/// Fault of encoding `k` data shards and `m` places for parity.
pub open spec fn encode_fault(shards: Seq<Seq<u8>>, k: int, m: int) -> Option<Seq<char>> {
    if size_fault(k, m) is Some {
        size_fault(k, m)
    } else if shards.len() < k + m {
        Some("TooFewShards"@)
    } else if shards.len() > k + m {
        Some("TooManyShards"@)
    } else if shards[0].len() == 0 {
        Some("EmptyShard"@)
    } else if !same_sizes(shards) {
        Some("IncorrectShardSize"@)
    } else {
        None
    }
}

/// Fault of the sizes of the shards that are left, from shard `i` on; `size` is that
/// of the last one before it.
pub open spec fn kept_fault(shards: Seq<Option<Seq<u8>>>, i: int, size: Option<nat>) -> Option<
    Seq<char>,
>
    decreases shards.len() - i,
{
    if i < 0 || i >= shards.len() {
        None
    } else {
        match shards[i] {
            None => kept_fault(shards, i + 1, size),
            Some(s) => if s.len() == 0 {
                Some("EmptyShard"@)
            } else if size is Some && size->0 != s.len() {
                Some("IncorrectShardSize"@)
            } else {
                kept_fault(shards, i + 1, Some(s.len()))
            },
        }
    }
}

/// Shards lost among the first `n`.
pub open spec fn lost_among(shards: Seq<Option<Seq<u8>>>, n: int) -> int
    decreases n,
{
    if n <= 0 {
        0
    } else {
        lost_among(shards, n - 1) + (if shards[n - 1] is None {
            1int
        } else {
            0
        })
    }
}

/// Fault of reconstructing `k` data shards with `m` parity shards.
pub open spec fn reconstruct_fault(shards: Seq<Option<Seq<u8>>>, k: int, m: int) -> Option<
    Seq<char>,
> {
    if size_fault(k, m) is Some {
        size_fault(k, m)
    } else if shards.len() < k + m {
        Some("TooFewShards"@)
    } else if shards.len() > k + m {
        Some("TooManyShards"@)
    } else if kept_fault(shards, 0, None) is Some {
        kept_fault(shards, 0, None)
    } else if lost_among(shards, shards.len() as int) > m {
        Some("TooFewShardsPresent"@)
    } else {
        None
    }
}

/// The parity shards of some data shards.
pub uninterp spec fn rs_parity(data: Seq<Seq<u8>>, m: nat) -> Seq<Seq<u8>>;

/// The data shards that reconstruction gives.
pub uninterp spec fn rs_restored(shards: Seq<Option<Seq<u8>>>, k: nat) -> Seq<Seq<u8>>;

/// The codeword of some data shards.
pub open spec fn codeword(data: Seq<Seq<u8>>, m: nat) -> Seq<Seq<u8>> {
    data + rs_parity(data, m)
}

/// The shards that are left are those of a codeword.
pub open spec fn left_of(shards: Seq<Option<Seq<u8>>>, word: Seq<Seq<u8>>) -> bool {
    &&& shards.len() == word.len()
    &&& forall|i: int|
        0 <= i < shards.len() && (#[trigger] shards[i]) is Some ==> shards[i] == Some(word[i])
}

/// `ReedSolomon::new` and `ReedSolomon::encode` over GF(2^8), which keep the data
/// shards and fill the places behind them with parity shards of the same size. The
/// parity depends on the data and on the number of parity shards alone. Where the
/// code reports a fault, its name is given and the shards stay as they were.
#[verifier::external_body]
fn encode_shards(k: usize, m: usize, shards: &mut Vec<Vec<u8>>) -> (done: Result<(), String>)
    requires
        k + m <= usize::MAX,
    ensures
        match encode_fault(contents(old(shards)@), k as int, m as int) {
            Some(text) => {
                &&& done matches Err(t) && t@ == text
                &&& final(shards)@ == old(shards)@
            },
            None => {
                let data = contents(old(shards)@).take(k as int);
                &&& done is Ok
                &&& contents(final(shards)@) == data + rs_parity(data, m as nat)
                &&& same_sizes(contents(final(shards)@))
                &&& final(shards)@.len() == k + m
            },
        },
{
    match ReedSolomon::new(k, m) {
        Ok(code) => code.encode(shards).map_err(|e| format!("{:?}", e)),
        Err(e) => Err(format!("{:?}", e)),
    }
}

/// `ReedSolomon::new` and `ReedSolomon::reconstruct_data` over GF(2^8), which keep
/// the shards that are there and fill in the data shards that are lost. The result
/// depends on the shards and on the size of the code alone. Where the shards that
/// are left are those of a codeword, its data comes out. Where the code reports a
/// fault, its name is given and the shards stay as they were.
#[verifier::external_body]
fn reconstruct_shards(k: usize, m: usize, shards: &mut Vec<Option<Vec<u8>>>) -> (done: Result<
    (),
    String,
>)
    requires
        k + m <= usize::MAX,
    ensures
        match reconstruct_fault(kept(old(shards)@), k as int, m as int) {
            Some(text) => {
                &&& done matches Err(t) && t@ == text
                &&& final(shards)@ == old(shards)@
            },
            None => {
                let before = kept(old(shards)@);
                let after = kept(final(shards)@);
                &&& done is Ok
                &&& after.len() == before.len()
                &&& forall|i: int|
                    0 <= i < k ==> #[trigger] after[i] == Some(rs_restored(before, k as nat)[i])
                &&& forall|i: int|
                    0 <= i < before.len() && before[i] is Some ==> #[trigger] after[i] == before[i]
                &&& forall|data: Seq<Seq<u8>>|
                    data.len() == k && data[0].len() > 0 && same_sizes(data) && left_of(
                        before,
                        #[trigger] codeword(data, m as nat),
                    ) ==> forall|i: int| 0 <= i < k ==> #[trigger] after[i] == Some(data[i])
            },
        },
{
    match ReedSolomon::new(k, m) {
        Ok(code) => code.reconstruct_data(shards).map_err(|e| format!("{:?}", e)),
        Err(e) => Err(format!("{:?}", e)),
    }
}

// ---------------------------------------------------------------------------
// Blocks
// ---------------------------------------------------------------------------

/// Copies of blocks.
fn copy_blocks(blocks: &[Vec<u8>]) -> (out: Vec<Vec<u8>>)
    ensures
        contents(out@) == contents(blocks@),
{
    let mut out: Vec<Vec<u8>> = Vec::new();
    let mut i: usize = 0;
    while i < blocks.len()
        invariant
            i <= blocks@.len(),
            out@.len() == i,
            forall|j: int| 0 <= j < i ==> (#[trigger] out@[j])@ == blocks@[j]@,
        decreases blocks@.len() - i,
    {
        let block = blocks[i].clone();
        assert(block@ =~= blocks@[i as int]@);
        out.push(block);
        i = i + 1;
    }
    assert(contents(out@) =~= contents(blocks@));
    out
}

/// What encoding data blocks at a level gives.
pub open spec fn is_encoding(
    out: Result<Vec<Vec<u8>>, RsError>,
    data: Seq<Seq<u8>>,
    rs_level: u8,
) -> bool {
    let k = data.len() as int;
    let m = parity_count(k, rs_level);
    if rs_level == 0 {
        out matches Ok(blocks) && contents(blocks@) == data
    } else if rs_level > 3 {
        out matches Err(RsError::UnknownLevel(level)) && level == rs_level
    } else if k + m > 256 {
        out matches Err(RsError::TooManyShards(a, b)) && a == k && b == m
    } else if k == 0 {
        out matches Err(RsError::Rse(text)) && text@ == "TooFewDataShards"@
    } else if data[0].len() == 0 {
        out matches Err(RsError::Rse(text)) && text@ == "EmptyShard"@
    } else if !same_sizes(data) {
        out matches Err(RsError::Rse(text)) && text@ == "IncorrectShardSize"@
    } else {
        out matches Ok(blocks) && contents(blocks@) == codeword(data, m as nat) && same_sizes(
            contents(blocks@),
        ) && blocks@.len() == k + m
    }
}

/// Encode data blocks of one size: the data blocks and then the parity blocks.
pub fn encode(data_blocks: &[Vec<u8>], rs_level: u8) -> (out: Result<Vec<Vec<u8>>, RsError>)
    ensures
        is_encoding(out, contents(data_blocks@), rs_level),
{
    if rs_level == 0 {
        return Ok(copy_blocks(data_blocks));
    }
    if rs_level > 3 {
        return Err(RsError::UnknownLevel(rs_level));
    }
    let k: usize = data_blocks.len();
    let m: usize = parity_blocks_for(k, rs_level);
    if k > 256 || k + m > 256 {
        return Err(RsError::TooManyShards(k, m));
    }
    let mut shards = copy_blocks(data_blocks);
    let ghost data = contents(data_blocks@);
    if k > 0 {
        let size: usize = data_blocks[0].len();
        let mut i: usize = 0;
        while i < m
            invariant
                i <= m,
                k == data.len(),
                k > 0,
                size == data[0].len(),
                shards@.len() == k + i,
                forall|j: int| 0 <= j < k ==> (#[trigger] shards@[j])@ == data[j],
                forall|j: int| k <= j < k + i ==> (#[trigger] shards@[j])@.len() == size,
            decreases m - i,
        {
            let parity: Vec<u8> = vec![0; size];
            shards.push(parity);
            i = i + 1;
        }
    }
    let ghost before = contents(shards@);
    let done = encode_shards(k, m, &mut shards);
    proof {
        assert(before.len() == k + m);
        if k > 0 {
            assert(before.take(k as int) =~= data);
            assert(before[0] == data[0]);
            assert(same_sizes(before) <==> same_sizes(data)) by {
                if same_sizes(data) {
                    assert forall|i: int| 0 <= i < before.len() implies (#[trigger] before[i]).len()
                        == before[0].len() by {
                        if i < k {
                            assert(before[i] == data[i]);
                        }
                    }
                }
                if same_sizes(before) {
                    assert forall|i: int| 0 <= i < data.len() implies (#[trigger] data[i]).len()
                        == data[0].len() by {
                        assert(before[i] == data[i]);
                    }
                }
            }
        }
    }
    match done {
        Ok(_) => Ok(shards),
        Err(text) => Err(RsError::Rse(text)),
    }
}

/// The first `n` shards are there.
pub open spec fn all_kept(shards: Seq<Option<Seq<u8>>>, n: int) -> bool {
    forall|i: int| 0 <= i < n ==> (#[trigger] shards[i]) is Some
}

/// The first `k` shards, if they are all there.
fn take_data(shards: &Vec<Option<Vec<u8>>>, k: usize) -> (out: Option<Vec<Vec<u8>>>)
    requires
        k <= shards@.len(),
    ensures
        out is Some <==> all_kept(kept(shards@), k as int),
        out matches Some(blocks) ==> {
            &&& blocks@.len() == k
            &&& forall|i: int|
                0 <= i < k ==> Some((#[trigger] contents(blocks@)[i])) == kept(shards@)[i]
        },
{
    let mut blocks: Vec<Vec<u8>> = Vec::new();
    let mut i: usize = 0;
    while i < k
        invariant
            i <= k <= shards@.len(),
            blocks@.len() == i,
            forall|j: int| 0 <= j < i ==> (#[trigger] kept(shards@)[j]) is Some,
            forall|j: int| 0 <= j < i ==> Some((#[trigger] blocks@[j])@) == kept(shards@)[j],
        decreases k - i,
    {
        match &shards[i] {
            Some(v) => {
                let copy = v.clone();
                assert(copy@ =~= v@);
                assert(kept(shards@)[i as int] == Some(v@));
                blocks.push(copy);
            },
            None => {
                assert(kept(shards@)[i as int] is None);
                return None;
            },
        }
        i = i + 1;
    }
    assert forall|i: int| 0 <= i < k implies Some((#[trigger] contents(blocks@)[i])) == kept(
        shards@,
    )[i] by {
        assert(contents(blocks@)[i] == blocks@[i]@);
    }
    Some(blocks)
}

/// Number of lost shards.
fn count_lost(shards: &Vec<Option<Vec<u8>>>) -> (lost: usize)
    ensures
        lost == lost_among(kept(shards@), shards@.len() as int),
        lost <= shards@.len(),
{
    let mut lost: usize = 0;
    let mut i: usize = 0;
    while i < shards.len()
        invariant
            i <= shards@.len(),
            lost == lost_among(kept(shards@), i as int),
            lost <= i,
        decreases shards@.len() - i,
    {
        match &shards[i] {
            Some(v) => {
                assert(kept(shards@)[i as int] == Some(v@));
            },
            None => {
                assert(kept(shards@)[i as int] is None);
                lost = lost + 1;
            },
        }
        i = i + 1;
    }
    lost
}

/// What recovering `k` data blocks from what is left of `k + m` blocks gives.
pub open spec fn is_decoding(
    out: Result<Vec<Vec<u8>>, RsError>,
    shards: Seq<Option<Seq<u8>>>,
    k: int,
    m: int,
) -> bool {
    let lost = lost_among(shards, shards.len() as int);
    if m == 0 {
        if shards.len() < k {
            out matches Err(RsError::ShardCountMismatch(a, b)) && a == k && b == shards.len()
        } else if !all_kept(shards, k) {
            out matches Err(RsError::TooManyLosses(a, b, c)) && a == k && b == 1 && c == 0
        } else {
            out matches Ok(blocks) && blocks@.len() == k && forall|i: int|
                0 <= i < k ==> Some(#[trigger] contents(blocks@)[i]) == shards[i]
        }
    } else if shards.len() != k + m {
        out matches Err(RsError::ShardCountMismatch(a, b)) && a == k + m && b == shards.len()
    } else if lost > m {
        out matches Err(RsError::TooManyLosses(a, b, c)) && a == k && b == lost && c == m
    } else {
        match reconstruct_fault(shards, k, m) {
            Some(fault) => out matches Err(RsError::Rse(text)) && text@ == fault,
            None => {
                &&& out matches Ok(blocks) && {
                    &&& blocks@.len() == k
                    &&& forall|i: int|
                        0 <= i < k ==> #[trigger] contents(blocks@)[i] == rs_restored(
                            shards,
                            k as nat,
                        )[i]
                    &&& forall|data: Seq<Seq<u8>>|
                        data.len() == k && data[0].len() > 0 && same_sizes(data) && left_of(
                            shards,
                            #[trigger] codeword(data, m as nat),
                        ) ==> contents(blocks@) == data
                }
            },
        }
    }
}

/// Recover the `k` data blocks from what is left of `k` data and `m` parity blocks.
pub fn decode(shards: Vec<Option<Vec<u8>>>, k: usize, m: usize) -> (out: Result<
    Vec<Vec<u8>>,
    RsError,
>)
    requires
        k + m <= usize::MAX,
    ensures
        is_decoding(out, kept(shards@), k as int, m as int),
{
    let mut shards = shards;
    let ghost before = kept(shards@);
    if m == 0 {
        if shards.len() < k {
            return Err(RsError::ShardCountMismatch(k, shards.len()));
        }
        return match take_data(&shards, k) {
            Some(blocks) => Ok(blocks),
            None => Err(RsError::TooManyLosses(k, 1, 0)),
        };
    }
    if shards.len() != k + m {
        return Err(RsError::ShardCountMismatch(k + m, shards.len()));
    }
    let lost: usize = count_lost(&shards);
    if lost > m {
        return Err(RsError::TooManyLosses(k, lost, m));
    }
    let done = reconstruct_shards(k, m, &mut shards);
    match done {
        Err(text) => Err(RsError::Rse(text)),
        Ok(_) => {
            let ghost after = kept(shards@);
            let taken = take_data(&shards, k);
            proof {
                assert forall|i: int| 0 <= i < k implies (#[trigger] after[i]) is Some by {}
                let blocks = taken->0;
                assert forall|i: int| 0 <= i < k implies #[trigger] contents(blocks@)[i]
                    == rs_restored(before, k as nat)[i] by {
                    assert(after[i] == Some(rs_restored(before, k as nat)[i]));
                }
                assert forall|data: Seq<Seq<u8>>|
                    data.len() == k && data[0].len() > 0 && same_sizes(data) && left_of(
                        before,
                        #[trigger] codeword(data, m as nat),
                    ) implies contents(blocks@) == data by {
                    assert forall|i: int| 0 <= i < k implies contents(blocks@)[i] == data[i] by {
                        assert(after[i] == Some(data[i]));
                    }
                    assert(contents(blocks@) =~= data);
                }
            }
            match taken {
                Some(blocks) => Ok(blocks),
                None => Err(RsError::TooManyLosses(k, 1, m)),
            }
        },
    }
}

// ---------------------------------------------------------------------------
// Laws
// ---------------------------------------------------------------------------

proof fn lemma_kept_sizes(shards: Seq<Option<Seq<u8>>>, word: Seq<Seq<u8>>, i: int, size: Option<nat>)
    requires
        0 <= i <= shards.len(),
        left_of(shards, word),
        same_sizes(word),
        word.len() > 0,
        word[0].len() > 0,
        size is Some ==> size->0 == word[0].len(),
    ensures
        kept_fault(shards, i, size) is None,
    decreases shards.len() - i,
{
    if i < shards.len() {
        match shards[i] {
            None => {
                lemma_kept_sizes(shards, word, i + 1, size);
            },
            Some(s) => {
                assert(shards[i] == Some(word[i]));
                assert(word[i].len() == word[0].len());
                lemma_kept_sizes(shards, word, i + 1, Some(s.len()));
            },
        }
    }
}

/// Blocks survive losses: what was encoded at a level that has parity is recovered
/// from what is left of it, as long as no more blocks are lost than there is parity.
pub proof fn law_lost_blocks_are_recovered(
    data: Seq<Seq<u8>>,
    rs_level: u8,
    sent: Result<Vec<Vec<u8>>, RsError>,
    shards: Seq<Option<Seq<u8>>>,
    out: Result<Vec<Vec<u8>>, RsError>,
)
    requires
        1 <= rs_level <= 3,
        is_encoding(sent, data, rs_level),
        sent is Ok,
        left_of(shards, contents(sent->Ok_0@)),
        lost_among(shards, shards.len() as int) <= parity_count(data.len() as int, rs_level),
        is_decoding(out, shards, data.len() as int, parity_count(data.len() as int, rs_level)),
    ensures
        out matches Ok(blocks) && contents(blocks@) == data,
{
    let k = data.len() as int;
    let m = parity_count(k, rs_level);
    let word = contents(sent->Ok_0@);
    assert(word == codeword(data, m as nat));
    assert(word[0] == data[0]);
    lemma_kept_sizes(shards, word, 0, None);
    assert(m >= 1);
    assert(reconstruct_fault(shards, k, m) is None);
}

/// One parity block protects up to 16, 8 or 4 data blocks, by level: there are as few as
/// that takes.
pub proof fn law_parity_follows_the_level(k: int, rs_level: u8)
    requires
        k >= 0,
    ensures
        rs_level == 0 ==> parity_count(k, rs_level) == 0,
        rs_level == 1 ==> 16 * (parity_count(k, rs_level) - 1) < k <= 16 * parity_count(
            k,
            rs_level,
        ),
        rs_level == 2 ==> 8 * (parity_count(k, rs_level) - 1) < k <= 8 * parity_count(k, rs_level),
        rs_level == 3 ==> 4 * (parity_count(k, rs_level) - 1) < k <= 4 * parity_count(k, rs_level),
{
}

/// Encoding leaves the data blocks as they are and adds the parity of the level behind them.
/// It takes every number of blocks of one size that the code has room for.
pub proof fn law_encoding_keeps_the_data(
    data: Seq<Seq<u8>>,
    rs_level: u8,
    m: int,
    out: Result<Vec<Vec<u8>>, RsError>,
    i: int,
)
    requires
        is_encoding(out, data, rs_level),
        1 <= rs_level <= 3,
        data.len() >= 1,
        data[0].len() >= 1,
        forall|j: int| 0 <= j < data.len() ==> (#[trigger] data[j]).len() == data[0].len(),
        ({
            let per = if rs_level == 1 {
                16int
            } else if rs_level == 2 {
                8
            } else {
                4
            };
            per * (m - 1) < data.len() <= per * m
        }),
        0 <= i < data.len(),
    ensures
        data.len() + m <= 256 <==> out is Ok,
        out matches Ok(blocks) ==> {
            &&& blocks@.len() == data.len() + m
            &&& blocks@[i]@ == data[i]
        },
{
    assert(parity_count(data.len() as int, rs_level) == m);
    match out {
        Ok(blocks) => {
            assert(contents(blocks@)[i] == codeword(data, m as nat)[i]);
        },
        Err(_) => {},
    }
}

/// Without parity the data is what there is: all of it, or an error where a block is lost.
pub proof fn law_no_parity_no_recovery(
    shards: Seq<Option<Seq<u8>>>,
    k: int,
    out: Result<Vec<Vec<u8>>, RsError>,
    i: int,
)
    requires
        is_decoding(out, shards, k, 0),
        0 <= i < k <= shards.len(),
    ensures
        out is Ok <==> forall|j: int| 0 <= j < k ==> #[trigger] shards[j] is Some,
        out matches Ok(blocks) ==> blocks@.len() == k && shards[i] == Some(blocks@[i]@),
{
    match out {
        Ok(blocks) => {
            assert(Some(contents(blocks@)[i]) == shards[i]);
            assert forall|j: int| 0 <= j < k implies #[trigger] shards[j] is Some by {
                assert(Some(contents(blocks@)[j]) == shards[j]);
            }
        },
        Err(_) => {},
    }
}

/// More lost blocks than parity are never recovered.
pub proof fn law_too_many_losses_are_refused(
    shards: Seq<Option<Seq<u8>>>,
    k: int,
    m: int,
    out: Result<Vec<Vec<u8>>, RsError>,
)
    requires
        m >= 1,
        k >= 0,
        is_decoding(out, shards, k, m),
        lost_among(shards, shards.len() as int) > m || shards.len() != k + m,
    ensures
        out is Err,
{
}

} // verus!
