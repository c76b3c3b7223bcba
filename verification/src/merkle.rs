//! The Merkle engine: address parsing, store lookup, and proof construction.
use vstd::prelude::*;
use vstd::string::*;

use vstd::arithmetic::div_mod::lemma_fundamental_div_mod;
use vstd::slice::slice_subrange;

use crate::hashing::keccak256_of;
use crate::order::{
    addr_at, addr_count, compare_record, lemma_lex_antisym, lemma_lex_eq, lemma_lex_refl,
    lemma_lex_trans, lemma_sorted_distinct, lex_cmp, sorted_addresses,
};
use crate::hexcodec::{all_hex, decoded_bytes, hex_chars_of, hex_decode20, hex_encode};
use crate::decimal::{dec_chars, usize_to_string};
use crate::{ADDRESS_HEX_LENGTH, ADDRESS_SIZE, HASH_SIZE, MAX_ADDRESSES};

verus! {

/// The failure taxonomy of the Merkle engine. Every operation reports one of
/// these instead of panicking.
#[derive(Debug, Clone)]
pub enum MerkleError {
    InvalidAddress(String),
    InvalidHex(String),
    AddressNotFound,
    InvalidLayer(String),
    FileIo(String),
    MissingLayer(String),
    CorruptedData(String),
    IndexOutOfBounds { level: usize, index: usize, count: usize },
    Internal(String),
}

/// The address text with an optional hex prefix (`0x` or `0X`) removed.
pub open spec fn strip_hex_prefix(s: Seq<char>) -> Seq<char> {
    if s.len() >= 2 && s[0] == '0' && (s[1] == 'x' || s[1] == 'X') {
        s.subrange(2, s.len() as int)
    } else {
        s
    }
}

/// The 20 bytes an address text denotes: its prefix-stripped remainder must
/// be exactly 40 hex characters.
pub open spec fn spec_parse_address(s: Seq<char>) -> Option<Seq<u8>> {
    let cleaned = strip_hex_prefix(s);
    if cleaned.len() == 40 && all_hex(cleaned) {
        Some(decoded_bytes(cleaned))
    } else {
        None
    }
}

/// Parses an address from hex text, accepting an optional `0x` prefix.
///
/// Fails with `InvalidAddress` when the remainder is not exactly 40
/// characters and with `InvalidHex` when a character is not a hex digit.
pub fn parse_address(raw: &str) -> (r: Result<[u8; ADDRESS_SIZE], MerkleError>)
    ensures
        r is Ok <==> spec_parse_address(raw@) is Some,
        r matches Ok(a) ==> spec_parse_address(raw@) == Some(a@),
        r matches Err(e) ==> match e {
            MerkleError::InvalidAddress(_) => strip_hex_prefix(raw@).len() != 40,
            MerkleError::InvalidHex(_) => strip_hex_prefix(raw@).len() == 40
                && !all_hex(strip_hex_prefix(raw@)),
            _ => false,
        },
{
    let n = raw.unicode_len();
    let cleaned: &str = if n >= 2 {
        let c0 = raw.get_char(0);
        let c1 = raw.get_char(1);
        if c0 == '0' && (c1 == 'x' || c1 == 'X') {
            raw.substring_char(2, n)
        } else {
            raw
        }
    } else {
        raw
    };
    proof {
        assert(cleaned@ == strip_hex_prefix(raw@));
    }
    if cleaned.unicode_len() != ADDRESS_HEX_LENGTH {
        return Err(MerkleError::InvalidAddress(String::from_str(
            "Address must be 40 hex characters after 0x",
        )));
    }
    match hex_decode20(cleaned) {
        Some(buf) => Ok(buf),
        None => Err(MerkleError::InvalidHex(String::from_str("Invalid hex in address"))),
    }
}

/// The address text as displayed: unchanged when it already starts with
/// `0x`; an upper-case `0X` prefix is rewritten; otherwise `0x` is prepended.
pub open spec fn spec_normalize_hex(s: Seq<char>) -> Seq<char> {
    if s.len() >= 2 && s[0] == '0' && s[1] == 'x' {
        s
    } else if s.len() >= 2 && s[0] == '0' && s[1] == 'X' {
        seq!['0', 'x'] + s.subrange(2, s.len() as int)
    } else {
        seq!['0', 'x'] + s
    }
}

/// Ensures a `0x` prefix is present for display, without altering character
/// case otherwise.
pub fn normalize_hex(raw: &str) -> (r: String)
    ensures
        r@ == spec_normalize_hex(raw@),
{
    proof {
        reveal_strlit("0x");
    }
    let n = raw.unicode_len();
    if n >= 2 {
        let c0 = raw.get_char(0);
        let c1 = raw.get_char(1);
        if c0 == '0' && c1 == 'x' {
            return raw.to_owned();
        }
        if c0 == '0' && c1 == 'X' {
            let rest = raw.substring_char(2, n);
            let r = String::from_str("0x").concat(rest);
            proof {
                assert(r@ =~= spec_normalize_hex(raw@));
            }
            return r;
        }
    }
    let r = String::from_str("0x").concat(raw);
    proof {
        assert(r@ =~= spec_normalize_hex(raw@));
    }
    r
}

/// A byte sequence as displayed: `0x` followed by its lowercase hex
/// spelling.
pub open spec fn hex_display(bytes: Seq<u8>) -> Seq<char> {
    seq!['0', 'x'] + hex_chars_of(bytes)
}

/// Formats a 32-byte hash as `0x`-prefixed lowercase hex.
pub fn to_hex32(bytes: &[u8; HASH_SIZE]) -> (r: String)
    ensures
        r@ == hex_display(bytes@),
{
    proof {
        reveal_strlit("0x");
    }
    let h = hex_encode(bytes.as_slice());
    let r = String::from_str("0x").concat(h.as_str());
    proof {
        assert(r@ =~= hex_display(bytes@));
    }
    r
}

/// Formats a 20-byte address as `0x`-prefixed lowercase hex.
pub fn to_hex20(bytes: &[u8; ADDRESS_SIZE]) -> (r: String)
    ensures
        r@ == hex_display(bytes@),
{
    proof {
        reveal_strlit("0x");
    }
    let h = hex_encode(bytes.as_slice());
    let r = String::from_str("0x").concat(h.as_str());
    proof {
        assert(r@ =~= hex_display(bytes@));
    }
    r
}

/// The binary search over the record range `[low, high)`, counting one
/// lookup per probed record: the exact recursion the store lookup performs.
pub open spec fn spec_find_loop(
    bytes: Seq<u8>,
    target: Seq<u8>,
    low: int,
    high: int,
    steps: int,
) -> Option<(int, int)>
    decreases high - low,
{
    if low >= high {
        None
    } else {
        let mid = (low + high) / 2;
        let c = lex_cmp(addr_at(bytes, mid), target);
        if c < 0 {
            spec_find_loop(bytes, target, mid + 1, high, steps + 1)
        } else if c > 0 {
            spec_find_loop(bytes, target, low, mid, steps + 1)
        } else {
            Some((mid, steps + 1))
        }
    }
}

/// The index and lookup count the store lookup reports for a target, over
/// the whole record file.
pub open spec fn spec_find_index(bytes: Seq<u8>, target: Seq<u8>) -> Option<(int, int)> {
    spec_find_loop(bytes, target, 0, addr_count(bytes), 0)
}

/// Looks up a target address in a record file by binary search, probing one
/// 20-byte record per comparison.
///
/// Returns `Ok(Some((index, lookups, total)))` on a hit, `Ok(None)` when the
/// target is absent or the file is empty, and `CorruptedData` when the file
/// length is not a whole number of records.
pub fn find_address_index(addresses: &Vec<u8>, target: &[u8; ADDRESS_SIZE]) -> (r: Result<
    Option<(usize, usize, usize)>,
    MerkleError,
>)
    ensures
        r is Ok <==> addresses@.len() % 20 == 0,
        r matches Err(e) ==> e matches MerkleError::CorruptedData(_),
        r matches Ok(opt) ==> match opt {
            Some(f) => spec_find_index(addresses@, target@) == Some((f.0 as int, f.1 as int))
                && f.2 == addr_count(addresses@),
            None => spec_find_index(addresses@, target@) is None,
        },
{
    let len = addresses.len();
    if len % 20 != 0 {
        return Err(MerkleError::CorruptedData(String::from_str(
            "addresses.bin is not a multiple of 20 bytes (",
        ).concat(usize_to_string(len).as_str()).concat(")")));
    }
    let total = len / 20;
    proof {
        lemma_fundamental_div_mod(len as int, 20);
    }
    if total == 0 {
        return Ok(None);
    }
    let mut low: usize = 0;
    let mut high: usize = total;
    let mut steps: usize = 0;
    loop
        invariant
            low <= high <= total,
            total == addr_count(addresses@),
            addresses@.len() == 20 * total,
            addresses@.len() <= usize::MAX,
            target@.len() == 20,
            steps + high - low <= total,
            spec_find_loop(addresses@, target@, low as int, high as int, steps as int)
                == spec_find_index(addresses@, target@),
        decreases high - low,
    {
        if low >= high {
            return Ok(None);
        }
        let mid = low + (high - low) / 2;
        proof {
            assert(mid as int == (low as int + high as int) / 2) by {
                lemma_fundamental_div_mod((high - low) as int, 2);
                lemma_fundamental_div_mod((low + high) as int, 2);
            }
            assert(20 * mid + 20 <= 20 * total);
        }
        let rec = slice_subrange(addresses.as_slice(), mid * 20, mid * 20 + 20);
        proof {
            assert(rec@ == addr_at(addresses@, mid as int));
        }
        let c = compare_record(rec, target);
        steps = steps + 1;
        if c < 0 {
            low = mid + 1;
        } else if c > 0 {
            high = mid;
        } else {
            return Ok(Some((mid, steps, total)));
        }
    }
}

/// In a sorted record file the lookup is exact: a hit reports the unique
/// index holding the target, and a miss means no record holds it.
pub proof fn lemma_find_index_correct(bytes: Seq<u8>, target: Seq<u8>)
    requires
        bytes.len() % 20 == 0,
        sorted_addresses(bytes),
        target.len() == 20,
    ensures
        match spec_find_index(bytes, target) {
            Some(f) => 0 <= f.0 < addr_count(bytes) && addr_at(bytes, f.0) == target
                && (forall|j: int|
                    0 <= j < addr_count(bytes) && j != f.0 ==> addr_at(bytes, j) != target),
            None => forall|j: int| 0 <= j < addr_count(bytes) ==> addr_at(bytes, j) != target,
        },
{
    lemma_find_loop_correct(bytes, target, 0, addr_count(bytes), 0);
    match spec_find_index(bytes, target) {
        Some(f) => {
            assert forall|j: int|
                0 <= j < addr_count(bytes) && j != f.0 implies addr_at(bytes, j) != target by {
                lemma_sorted_distinct(bytes, j, f.0);
            }
        },
        None => {},
    }
}

/// The search invariant: when every record outside `[low, high)` differs
/// from the target, the recursion finds the target inside the window or
/// correctly reports it absent.
proof fn lemma_find_loop_correct(bytes: Seq<u8>, target: Seq<u8>, low: int, high: int, steps: int)
    requires
        bytes.len() % 20 == 0,
        sorted_addresses(bytes),
        target.len() == 20,
        0 <= low <= high <= addr_count(bytes),
        forall|j: int|
            0 <= j < addr_count(bytes) && !(low <= j < high) ==> addr_at(bytes, j) != target,
    ensures
        match spec_find_loop(bytes, target, low, high, steps) {
            Some(f) => low <= f.0 < high && addr_at(bytes, f.0) == target,
            None => forall|j: int| 0 <= j < addr_count(bytes) ==> addr_at(bytes, j) != target,
        },
    decreases high - low,
{
    if low >= high {
    } else {
        let mid = (low + high) / 2;
        let c = lex_cmp(addr_at(bytes, mid), target);
        if c < 0 {
            assert forall|j: int|
                0 <= j < addr_count(bytes) && !(mid + 1 <= j < high) implies addr_at(bytes, j)
                != target by {
                if low <= j < mid {
                    lemma_lex_trans(addr_at(bytes, j), addr_at(bytes, mid), target);
                    if addr_at(bytes, j) == target {
                        lemma_lex_refl(target);
                    }
                } else if j == mid {
                    if addr_at(bytes, mid) == target {
                        lemma_lex_refl(target);
                    }
                }
            }
            lemma_find_loop_correct(bytes, target, mid + 1, high, steps + 1);
        } else if c > 0 {
            assert forall|j: int|
                0 <= j < addr_count(bytes) && !(low <= j < mid) implies addr_at(bytes, j)
                != target by {
                if mid <= j < high {
                    if j == mid {
                        if addr_at(bytes, mid) == target {
                            lemma_lex_refl(target);
                        }
                    } else {
                        lemma_lex_antisym(addr_at(bytes, mid), target);
                        lemma_lex_trans(target, addr_at(bytes, mid), addr_at(bytes, j));
                        if addr_at(bytes, j) == target {
                            lemma_lex_refl(target);
                        }
                    }
                }
            }
            lemma_find_loop_correct(bytes, target, low, mid, steps + 1);
        } else {
            lemma_lex_eq(addr_at(bytes, mid), target);
        }
    }
}

/// The leaf hash of an address: Keccak-256 of its 20 raw bytes.
pub fn hash_leaf(address: &[u8; ADDRESS_SIZE]) -> (r: [u8; HASH_SIZE])
    ensures
        r@ == keccak256_of(address@),
{
    crate::hashing::keccak256(address.as_slice())
}

} // verus!

use vstd::prelude::*;

verus! {

/// Which side of the proved node its sibling sits on at one tree level.
#[derive(Debug, Clone, Copy, PartialEq, Eq, Structural)]
pub enum SiblingSide {
    Left,
    Right,
}

impl SiblingSide {
    /// The lowercase name of the side.
    pub fn as_str(&self) -> (r: &'static str)
        ensures
            self is Left ==> r@ == "left"@,
            self is Right ==> r@ == "right"@,
    {
        match self {
            SiblingSide::Left => "left",
            SiblingSide::Right => "right",
        }
    }

    /// The flag a proof consumer pairs with each step: true means the
    /// sibling is on the left.
    pub fn proof_flag(&self) -> (r: bool)
        ensures
            r == (self is Left),
    {
        matches!(self, SiblingSide::Left)
    }
}

/// One proof step as the specification sees it.
pub struct SpecStep {
    pub level: int,
    pub sibling_index: int,
    pub sibling: Seq<u8>,
    pub left: bool,
}

/// One level of an inclusion proof: the sibling hash to combine with, and
/// the side it sits on.
#[derive(Debug, Clone)]
pub struct ProofStep {
    pub level: usize,
    pub sibling_index: usize,
    pub sibling_hash: [u8; 32],
    pub side: SiblingSide,
}

impl View for ProofStep {
    type V = SpecStep;

    open spec fn view(&self) -> SpecStep {
        SpecStep {
            level: self.level as int,
            sibling_index: self.sibling_index as int,
            sibling: self.sibling_hash@,
            left: self.side is Left,
        }
    }
}

/// A vector of proof steps as the sequence of their spec views.
pub open spec fn steps_view(steps: Seq<ProofStep>) -> Seq<SpecStep> {
    Seq::new(steps.len(), |i: int| steps[i]@)
}

/// The full chain of evidence for one address: its position in the store,
/// its leaf hash, the sibling steps up the tree, and the root they lead to.
#[derive(Debug, Clone)]
pub struct ProofResult {
    pub normalized_address: String,
    pub index: usize,
    pub total: usize,
    pub lookups: usize,
    pub leaf: [u8; 32],
    pub root: [u8; 32],
    pub root_level: usize,
    pub steps: Vec<ProofStep>,
}

/// The store and layer files of one Merkle database, as loaded from its
/// directory: `addresses` is absent when the store file is missing, and
/// `layers` holds the raw bytes of the consecutive layer files present from
/// level 0 up to the first gap.
#[derive(Debug)]
pub struct MerkleDb {
    pub addresses: Option<Vec<u8>>,
    pub layers: Vec<Vec<u8>>,
}

/// A Merkle database as the specification sees it.
pub struct DbView {
    pub addresses: Option<Seq<u8>>,
    pub layers: Seq<Seq<u8>>,
}

/// A vector of raw layer files as the sequence of their byte sequences.
pub open spec fn byte_layers_view(ls: Seq<Vec<u8>>) -> Seq<Seq<u8>> {
    Seq::new(ls.len(), |k: int| ls[k]@)
}

impl View for MerkleDb {
    type V = DbView;

    open spec fn view(&self) -> DbView {
        DbView {
            addresses: match self.addresses {
                Option::Some(ref v) => Option::Some(v@),
                Option::None => Option::None,
            },
            layers: byte_layers_view(self.layers@),
        }
    }
}

/// The hash record at index `i` of a flat file of 32-byte records.
pub open spec fn node_at(bytes: Seq<u8>, i: int) -> Seq<u8> {
    bytes.subrange(32 * i, 32 * i + 32)
}

/// The number of whole 32-byte records in a flat file.
pub open spec fn node_count(bytes: Seq<u8>) -> int {
    bytes.len() as int / 32
}

/// A flat layer file as the sequence of its 32-byte records.
pub open spec fn nodes_of(bytes: Seq<u8>) -> Seq<Seq<u8>> {
    Seq::new(node_count(bytes) as nat, |i: int| node_at(bytes, i))
}

/// Computes how many 32-byte records a layer file holds.
///
/// `None` stands for a layer file that could not be opened; a present file
/// whose length is not a whole number of records is corrupted.
pub fn layer_node_count(layer: Option<&Vec<u8>>) -> (r: Result<usize, MerkleError>)
    ensures
        match r {
            Ok(n) => layer matches Some(b) && b@.len() % 32 == 0 && n == node_count(b@),
            Err(e) => match e {
                MerkleError::FileIo(_) => layer is None,
                MerkleError::CorruptedData(_) => layer matches Some(b) && b@.len() % 32 != 0,
                _ => false,
            },
        },
{
    let bytes = match layer {
        Some(b) => b,
        None => {
            return Err(MerkleError::FileIo(String::from_str("Failed to read layer file")));
        },
    };
    if bytes.len() % 32 != 0 {
        return Err(MerkleError::CorruptedData(String::from_str(
            "Layer file is not a multiple of 32 bytes",
        )));
    }
    Ok(bytes.len() / 32)
}

/// Reads the 32-byte record at `index` from a flat layer file.
pub fn read_node(layer: &Vec<u8>, index: usize) -> (r: Result<[u8; 32], MerkleError>)
    ensures
        match r {
            Ok(node) => 32 * index + 32 <= layer@.len() && node@ == node_at(layer@, index as int),
            Err(e) => match e {
                MerkleError::IndexOutOfBounds { .. } => 32 * (index as int) + 32 > usize::MAX,
                MerkleError::FileIo(_) => 32 * index + 32 > layer@.len(),
                _ => false,
            },
        },
{
    if index > (usize::MAX - 32) / 32 {
        return Err(MerkleError::IndexOutOfBounds { level: 0, index, count: 0 });
    }
    let offset = index * 32;
    if offset + 32 > layer.len() {
        return Err(MerkleError::FileIo(String::from_str("Read failed in layer file")));
    }
    let mut node = [0u8; 32];
    let mut i: usize = 0;
    while i < 32
        invariant
            i <= 32,
            offset == 32 * index,
            offset + 32 <= layer@.len(),
            forall|j: int| 0 <= j < i ==> node@[j] == layer@[offset + j],
        decreases 32 - i,
    {
        node[i] = layer[offset + i];
        i = i + 1;
    }
    proof {
        assert(node@ =~= node_at(layer@, index as int));
    }
    Ok(node)
}

} // verus!
use crate::tree::{layers_of, lemma_layers_shape, next_layer};

verus! {

/// The outcome of walking the layer files from one leaf position to the
/// root.
pub enum WalkOutcome {
    MissingLayer { level: int },
    CorruptedLayer { level: int },
    OutOfBounds { level: int, index: int, count: int },
    Done { root: Seq<u8>, root_level: int, steps: Seq<SpecStep> },
}

/// The walk from `(level, idx)` to the root: at each level the sibling of
/// the current node becomes one proof step, and the position halves; a
/// single-node layer is the root and ends the walk.
pub open spec fn spec_walk(layers: Seq<Seq<u8>>, level: int, idx: int) -> WalkOutcome
    decreases layers.len() - level,
{
    if level < 0 || level >= layers.len() {
        WalkOutcome::MissingLayer { level }
    } else {
        let bytes = layers[level];
        let count = node_count(bytes);
        if bytes.len() % 32 != 0 || count == 0 {
            WalkOutcome::CorruptedLayer { level }
        } else if idx >= count {
            WalkOutcome::OutOfBounds { level, index: idx, count }
        } else if count == 1 {
            WalkOutcome::Done { root: node_at(bytes, 0), root_level: level, steps: Seq::empty() }
        } else {
            let sib = if idx % 2 == 0 {
                if idx + 1 < count {
                    idx + 1
                } else {
                    idx
                }
            } else {
                idx - 1
            };
            let step = SpecStep {
                level,
                sibling_index: sib,
                sibling: node_at(bytes, sib),
                left: idx % 2 == 1,
            };
            match spec_walk(layers, level + 1, idx / 2) {
                WalkOutcome::Done { root, root_level, steps } => WalkOutcome::Done {
                    root,
                    root_level,
                    steps: seq![step] + steps,
                },
                o => o,
            }
        }
    }
}

/// A walk outcome with earlier steps prepended to a successful walk;
/// failures pass through unchanged.
pub open spec fn walk_prepend(pre: Seq<SpecStep>, o: WalkOutcome) -> WalkOutcome {
    match o {
        WalkOutcome::Done { root, root_level, steps } => WalkOutcome::Done {
            root,
            root_level,
            steps: pre + steps,
        },
        _ => o,
    }
}

/// The outcome of a whole proof request, error taxonomy included.
pub enum ProofOutcome {
    InvalidAddress,
    InvalidHex,
    StoreMissing,
    StoreCorrupted,
    NotFound,
    TooManyAddresses,
    MissingLayer { level: int },
    CorruptedLayer { level: int },
    OutOfBounds { level: int, index: int, count: int },
    Success {
        address: Seq<u8>,
        normalized: Seq<char>,
        index: int,
        total: int,
        lookups: int,
        leaf: Seq<u8>,
        root: Seq<u8>,
        root_level: int,
        steps: Seq<SpecStep>,
    },
}

/// What a proof request over a database and an address text yields: parse,
/// then look the address up, then guard the store size, then walk the
/// layers from the found index.
pub open spec fn spec_build_proof(db: DbView, s: Seq<char>) -> ProofOutcome {
    match spec_parse_address(s) {
        None => if strip_hex_prefix(s).len() != 40 {
            ProofOutcome::InvalidAddress
        } else {
            ProofOutcome::InvalidHex
        },
        Some(target) => match db.addresses {
            None => ProofOutcome::StoreMissing,
            Some(ab) => if ab.len() % 20 != 0 {
                ProofOutcome::StoreCorrupted
            } else {
                match spec_find_index(ab, target) {
                    None => ProofOutcome::NotFound,
                    Some(f) => if addr_count(ab) > MAX_ADDRESSES as int {
                        ProofOutcome::TooManyAddresses
                    } else {
                        match spec_walk(db.layers, 0, f.0) {
                            WalkOutcome::MissingLayer { level } => ProofOutcome::MissingLayer {
                                level,
                            },
                            WalkOutcome::CorruptedLayer { level } => ProofOutcome::CorruptedLayer {
                                level,
                            },
                            WalkOutcome::OutOfBounds {
                                level,
                                index,
                                count,
                            } => ProofOutcome::OutOfBounds { level, index, count },
                            WalkOutcome::Done { root, root_level, steps } => ProofOutcome::Success {
                                address: target,
                                normalized: spec_normalize_hex(s),
                                index: f.0,
                                total: addr_count(ab),
                                lookups: f.1,
                                leaf: keccak256_of(target),
                                root,
                                root_level,
                                steps,
                            },
                        }
                    },
                }
            },
        },
    }
}

/// Whether an executable proof result reports exactly the specified
/// outcome: the same error kind, or a successful proof with the same
/// payload field for field.
pub open spec fn result_matches(r: Result<ProofResult, MerkleError>, o: ProofOutcome) -> bool {
    match r {
        Ok(pr) => match o {
            ProofOutcome::Success {
                address,
                normalized,
                index,
                total,
                lookups,
                leaf,
                root,
                root_level,
                steps,
            } => pr.normalized_address@ == normalized && pr.index == index && pr.total == total
                && pr.lookups == lookups && pr.leaf@ == leaf && pr.root@ == root && pr.root_level
                == root_level && steps_view(pr.steps@) == steps,
            _ => false,
        },
        Err(e) => match e {
            MerkleError::InvalidAddress(_) => o is InvalidAddress,
            MerkleError::InvalidHex(_) => o is InvalidHex,
            MerkleError::FileIo(_) => o is StoreMissing,
            MerkleError::AddressNotFound => o is NotFound,
            MerkleError::InvalidLayer(_) => o is TooManyAddresses,
            MerkleError::MissingLayer(_) => o is MissingLayer,
            MerkleError::CorruptedData(_) => o is StoreCorrupted || o is CorruptedLayer,
            MerkleError::IndexOutOfBounds { level, index, count } => o == (ProofOutcome::OutOfBounds {
                level: level as int,
                index: index as int,
                count: count as int,
            }),
            MerkleError::Internal(_) => false,
        },
    }
}

/// Builds the inclusion proof for an address against a loaded database:
/// parses the text, binary-searches the store, and walks the layers from
/// the found leaf position to the root, collecting one sibling step per
/// level.
pub fn build_proof(db: &MerkleDb, address_str: &str) -> (r: Result<ProofResult, MerkleError>)
    ensures
        result_matches(r, spec_build_proof(db@, address_str@)),
{
    let address = match parse_address(address_str) {
        Ok(a) => a,
        Err(e) => {
            return Err(e);
        },
    };
    let addresses: &Vec<u8> = match &db.addresses {
        Some(v) => v,
        None => {
            return Err(MerkleError::FileIo(String::from_str("Failed to open addresses.bin")));
        },
    };
    let found = match find_address_index(addresses, &address) {
        Ok(f) => f,
        Err(e) => {
            return Err(e);
        },
    };
    let (index, lookups, total) = match found {
        Some(t) => t,
        None => {
            return Err(MerkleError::AddressNotFound);
        },
    };
    if total > MAX_ADDRESSES {
        return Err(MerkleError::InvalidLayer(String::from_str("Address count ").concat(
            usize_to_string(total).as_str(),
        ).concat(" exceeds maximum of ").concat(usize_to_string(MAX_ADDRESSES).as_str())));
    }
    let leaf_hash = hash_leaf(&address);
    let ghost dl = db@.layers;
    let ghost goal = spec_walk(dl, 0, index as int);
    let mut proof_steps: Vec<ProofStep> = Vec::new();
    let mut level: usize = 0;
    let mut path_index: usize = index;
    loop
        invariant
            db@.addresses == Some(addresses@),
            dl == db@.layers,
            goal == spec_walk(dl, 0, index as int),
            spec_build_proof(db@, address_str@) == (match goal {
                WalkOutcome::MissingLayer { level: l } => ProofOutcome::MissingLayer { level: l },
                WalkOutcome::CorruptedLayer { level: l } => ProofOutcome::CorruptedLayer {
                    level: l,
                },
                WalkOutcome::OutOfBounds { level: l, index: i2, count: c2 } => ProofOutcome::OutOfBounds {
                    level: l,
                    index: i2,
                    count: c2,
                },
                WalkOutcome::Done { root, root_level, steps } => ProofOutcome::Success {
                    address: address@,
                    normalized: spec_normalize_hex(address_str@),
                    index: index as int,
                    total: total as int,
                    lookups: lookups as int,
                    leaf: leaf_hash@,
                    root,
                    root_level,
                    steps,
                },
            }),
            leaf_hash@ == keccak256_of(address@),
            walk_prepend(steps_view(proof_steps@), spec_walk(dl, level as int, path_index as int))
                == goal,
        decreases dl.len() - level,
    {
        if level >= db.layers.len() {
            if level == 0 {
                return Err(MerkleError::MissingLayer(String::from_str(
                    "No layer files found (expected layer00.bin, layer01.bin, ...)",
                )));
            }
            return Err(MerkleError::MissingLayer(String::from_str(
                "Missing layer file for level ",
            ).concat(usize_to_string(level).as_str())));
        }
        let layer: &Vec<u8> = &db.layers[level];
        proof {
            assert(layer@ == dl[level as int]);
        }
        let cnt = match layer_node_count(Some(layer)) {
            Ok(c) => c,
            Err(e) => {
                return Err(e);
            },
        };
        if cnt == 0 {
            return Err(MerkleError::CorruptedData(String::from_str("Layer ").concat(
                usize_to_string(level).as_str(),
            ).concat(" is empty")));
        }
        if path_index >= cnt {
            return Err(MerkleError::IndexOutOfBounds { level, index: path_index, count: cnt });
        }
        let layer_len = layer.len();
        proof {
            assert(layer@.len() == layer_len && layer_len <= usize::MAX);
            vstd::arithmetic::div_mod::lemma_fundamental_div_mod(layer@.len() as int, 32);
        }
        if cnt == 1 {
            let root = match read_node(layer, 0) {
                Ok(n) => n,
                Err(e) => {
                    proof {
                        assert(false);
                    }
                    return Err(e);
                },
            };
            let pr = ProofResult {
                normalized_address: normalize_hex(address_str),
                index,
                total,
                lookups,
                leaf: leaf_hash,
                root,
                root_level: level,
                steps: proof_steps,
            };
            proof {
                assert(steps_view(pr.steps@) + Seq::<SpecStep>::empty() =~= steps_view(pr.steps@));
            }
            return Ok(pr);
        }
        let is_left = path_index % 2 == 0;
        let sibling_idx = if is_left {
            if path_index + 1 < cnt {
                path_index + 1
            } else {
                path_index
            }
        } else {
            path_index - 1
        };
        let sibling_hash = match read_node(layer, sibling_idx) {
            Ok(n) => n,
            Err(e) => {
                proof {
                    assert(false);
                }
                return Err(e);
            },
        };
        let step = ProofStep {
            level,
            sibling_index: sibling_idx,
            sibling_hash,
            side: if is_left {
                SiblingSide::Right
            } else {
                SiblingSide::Left
            },
        };
        let ghost old_steps = steps_view(proof_steps@);
        let ghost spec_step = step@;
        proof_steps.push(step);
        proof {
            assert(steps_view(proof_steps@) =~= old_steps.push(spec_step));
            assert(old_steps.push(spec_step) + (match spec_walk(
                dl,
                level as int + 1,
                path_index as int / 2,
            ) {
                WalkOutcome::Done { steps, .. } => steps,
                _ => Seq::<SpecStep>::empty(),
            }) =~= old_steps + (seq![spec_step] + (match spec_walk(
                dl,
                level as int + 1,
                path_index as int / 2,
            ) {
                WalkOutcome::Done { steps, .. } => steps,
                _ => Seq::<SpecStep>::empty(),
            })));
        }
        path_index = path_index / 2;
        level = level + 1;
    }
}

} // verus!
verus! {

/// Checks that the minimum files of a built tree are present: the address
/// store and the level-0 layer file.
pub fn ensure_db_present(db: &MerkleDb) -> (r: Result<(), MerkleError>)
    ensures
        r is Ok <==> db@.addresses is Some && db@.layers.len() > 0,
        r matches Err(e) ==> e matches MerkleError::MissingLayer(_),
{
    if db.addresses.is_none() {
        return Err(MerkleError::MissingLayer(String::from_str(
            "Missing addresses file (expected addresses.bin)",
        )));
    }
    if db.layers.len() == 0 {
        return Err(MerkleError::MissingLayer(String::from_str(
            "Missing first layer file (expected layer00.bin)",
        )));
    }
    Ok(())
}

/// Counts the contiguous run of layer files present from level 0, probing
/// at most levels 0 through 64: `present[k]` says whether the file for
/// level `k` exists.
pub fn available_layers(present: &Vec<bool>) -> (n: usize)
    ensures
        n <= 65,
        n <= present@.len(),
        forall|k: int| 0 <= k < n ==> present@[k],
        n < present@.len() && n < 65 ==> !present@[n as int],
{
    let mut i: usize = 0;
    while i < 65 && i < present.len() && present[i]
        invariant
            i <= 65,
            i <= present@.len(),
            forall|k: int| 0 <= k < i ==> present@[k],
        decreases 65 - i,
    {
        i = i + 1;
    }
    i
}

} // verus!
verus! {

/// Replaying a proof: starting from a node's hash, combine it with each
/// step's sibling — sibling first when the sibling is on the left —
/// climbing one level per step.
pub open spec fn replay(start: Seq<u8>, steps: Seq<SpecStep>) -> Seq<u8>
    decreases steps.len(),
{
    if steps.len() == 0 {
        start
    } else {
        let s0 = steps[0];
        replay(
            if s0.left {
                crate::hashing::pair_hash(s0.sibling, start)
            } else {
                crate::hashing::pair_hash(start, s0.sibling)
            },
            steps.drop_first(),
        )
    }
}

/// The leaf hashes of a record file, one per address, in record order.
pub open spec fn leaf_hashes_of(ab: Seq<u8>) -> Seq<Seq<u8>> {
    Seq::new(addr_count(ab) as nat, |i: int| keccak256_of(addr_at(ab, i)))
}

/// A database that holds a complete tree over its own address store: every
/// layer file chunks into exactly the nodes that rebuilding the tree from
/// the store's leaf hashes would produce.
pub open spec fn db_is_tree(db: DbView) -> bool {
    &&& db.addresses matches Some(ab)
    &&& ab.len() % 20 == 0
    &&& addr_count(ab) >= 1
    &&& db.layers.len() == layers_of(leaf_hashes_of(ab)).len()
    &&& forall|k: int| 0 <= k < db.layers.len() ==> (#[trigger] db.layers[k]).len() % 32 == 0
        && nodes_of(db.layers[k]) == layers_of(leaf_hashes_of(ab))[k]
}

/// In consistent layers, the walk from any in-range position succeeds, ends
/// at the top layer's single node, and its steps replay from the starting
/// node to exactly that root.
proof fn lemma_walk_replay(layers: Seq<Seq<u8>>, level: int, idx: int)
    requires
        0 <= level < layers.len(),
        forall|k: int| level <= k < layers.len() ==> (#[trigger] layers[k]).len() % 32 == 0
            && node_count(layers[k]) >= 1,
        forall|k: int| level <= k < layers.len() - 1 ==> node_count(#[trigger] layers[k]) > 1
            && nodes_of(layers[k + 1]) == next_layer(nodes_of(layers[k])),
        node_count(layers[layers.len() - 1]) == 1,
        0 <= idx < node_count(layers[level]),
    ensures
        spec_walk(layers, level, idx) matches WalkOutcome::Done { root, root_level, steps }
            && root_level == layers.len() - 1 && root == node_at(layers[layers.len() - 1], 0)
            && replay(node_at(layers[level], idx), steps) == root,
    decreases layers.len() - level,
{
    let bytes = layers[level];
    let count = node_count(bytes);
    if count == 1 {
        assert(level == layers.len() - 1);
    } else {
        assert(level < layers.len() - 1);
        let nidx = idx / 2;
        let above = layers[level + 1];
        assert(nodes_of(above) == next_layer(nodes_of(bytes)));
        assert(nodes_of(above).len() == next_layer(nodes_of(bytes)).len());
        assert(nodes_of(bytes).len() == count);
        assert(next_layer(nodes_of(bytes)).len() == (count + 1) / 2);
        assert(nodes_of(above).len() == node_count(above));
        assert(node_count(above) == (count + 1) / 2);
        assert(0 <= nidx < node_count(above));
        lemma_walk_replay(layers, level + 1, nidx);
        let sib = if idx % 2 == 0 {
            if idx + 1 < count {
                idx + 1
            } else {
                idx
            }
        } else {
            idx - 1
        };
        let step = SpecStep {
            level,
            sibling_index: sib,
            sibling: node_at(bytes, sib),
            left: idx % 2 == 1,
        };
        let combined = if step.left {
            crate::hashing::pair_hash(step.sibling, node_at(bytes, idx))
        } else {
            crate::hashing::pair_hash(node_at(bytes, idx), step.sibling)
        };
        assert(nodes_of(above)[nidx] == next_layer(nodes_of(bytes))[nidx]);
        if idx % 2 == 0 {
            assert(2 * nidx == idx);
            assert(node_at(above, nidx) == combined);
        } else {
            assert(2 * nidx == idx - 1);
            assert(node_at(above, nidx) == combined);
        }
        match spec_walk(layers, level + 1, nidx) {
            WalkOutcome::Done { root, root_level, steps } => {
                assert((seq![step] + steps).drop_first() =~= steps);
                assert(replay(node_at(bytes, idx), seq![step] + steps) == replay(combined, steps));
            },
            _ => {
                assert(false);
            },
        }
    }
}

/// A hit of the store lookup always reports an index whose record equals
/// the target, whatever order the store is in.
proof fn lemma_find_hit(bytes: Seq<u8>, target: Seq<u8>, low: int, high: int, steps: int)
    requires
        0 <= low <= high <= addr_count(bytes),
        target.len() == 20,
        bytes.len() % 20 == 0,
    ensures
        match spec_find_loop(bytes, target, low, high, steps) {
            Some(f) => low <= f.0 < high && addr_at(bytes, f.0) == target,
            None => true,
        },
    decreases high - low,
{
    if low < high {
        let mid = (low + high) / 2;
        let c = lex_cmp(addr_at(bytes, mid), target);
        if c < 0 {
            lemma_find_hit(bytes, target, mid + 1, high, steps + 1);
        } else if c > 0 {
            lemma_find_hit(bytes, target, low, mid, steps + 1);
        } else {
            lemma_lex_eq(addr_at(bytes, mid), target);
        }
    }
}

/// Replaying the steps of any successful proof against a database that
/// holds a complete tree reproduces the returned root from the returned
/// leaf hash.
pub proof fn lemma_proof_replays_to_root(db: DbView, s: Seq<char>)
    requires
        db_is_tree(db),
    ensures
        match spec_build_proof(db, s) {
            ProofOutcome::Success { leaf, root, steps, .. } => replay(leaf, steps) == root,
            _ => true,
        },
{
    match spec_parse_address(s) {
        None => {},
        Some(target) => {
            let ab = db.addresses.unwrap();
            assert(target.len() == 20);
            lemma_db_tree_walk_ready(db);
            match spec_find_index(ab, target) {
                None => {},
                Some(f) => {
                    lemma_find_hit(ab, target, 0, addr_count(ab), 0);
                    if addr_count(ab) <= MAX_ADDRESSES as int {
                        lemma_walk_replay(db.layers, 0, f.0);
                    }
                },
            }
        },
    }
}

/// In a database that holds a complete tree, the raw layer files satisfy
/// everything the walk needs: chunked cleanly, linked level to level by the
/// pairing rule, one node on top, and the leaf layer aligned with the store.
proof fn lemma_db_tree_walk_ready(db: DbView)
    requires
        db_is_tree(db),
    ensures
        db.layers.len() >= 1,
        forall|k: int| 0 <= k < db.layers.len() ==> (#[trigger] db.layers[k]).len() % 32 == 0
            && node_count(db.layers[k]) >= 1,
        forall|k: int| 0 <= k < db.layers.len() - 1 ==> node_count(#[trigger] db.layers[k]) > 1
            && nodes_of(db.layers[k + 1]) == next_layer(nodes_of(db.layers[k])),
        node_count(db.layers[db.layers.len() - 1]) == 1,
        node_count(db.layers[0]) == addr_count(db.addresses.unwrap()),
        forall|i: int| 0 <= i < addr_count(db.addresses.unwrap()) ==> #[trigger] node_at(
            db.layers[0],
            i,
        ) == keccak256_of(addr_at(db.addresses.unwrap(), i)),
{
    let ab = db.addresses.unwrap();
    let leaves = leaf_hashes_of(ab);
    let tree = layers_of(leaves);
    lemma_layers_shape(leaves);
    assert forall|k: int| 0 <= k < db.layers.len() implies node_count(#[trigger] db.layers[k])
        == tree[k].len() by {
        assert(nodes_of(db.layers[k]).len() == tree[k].len());
    }
    assert forall|k: int| 0 <= k < db.layers.len() - 1 implies nodes_of(db.layers[k + 1])
        == next_layer(nodes_of(#[trigger] db.layers[k])) by {
        assert(nodes_of(db.layers[k]) == tree[k]);
        assert(nodes_of(db.layers[k + 1]) == tree[k + 1]);
        assert(tree[k + 1] == next_layer(tree[k]));
    }
    assert(node_count(db.layers[db.layers.len() - 1]) == tree.last().len());
    assert forall|i: int| 0 <= i < addr_count(ab) implies #[trigger] node_at(db.layers[0], i)
        == keccak256_of(addr_at(ab, i)) by {
        assert(node_at(db.layers[0], i) == nodes_of(db.layers[0])[i]);
        assert(nodes_of(db.layers[0])[i] == leaves[i]);
    }
}

/// A proof request for an address present in a sorted store of a complete
/// tree always succeeds, reporting the unique index that holds the address,
/// and its steps replay from its leaf hash to the root of the top layer.
pub proof fn lemma_member_address_gets_proof(db: DbView, s: Seq<char>, target: Seq<u8>, j: int)
    requires
        db_is_tree(db),
        spec_parse_address(s) == Some(target),
        db.addresses matches Some(ab) && sorted_addresses(ab) && 0 <= j < addr_count(ab)
            && addr_at(ab, j) == target && addr_count(ab) <= MAX_ADDRESSES as int,
    ensures
        spec_build_proof(db, s) matches ProofOutcome::Success {
            index,
            total,
            leaf,
            root,
            root_level,
            steps,
            ..
        } && index == j && total == addr_count(db.addresses.unwrap()) && leaf == keccak256_of(
            target,
        ) && root_level == db.layers.len() - 1 && root == node_at(
            db.layers[db.layers.len() - 1],
            0,
        ) && replay(leaf, steps) == root,
{
    let ab = db.addresses.unwrap();
    assert(target.len() == 20);
    lemma_find_index_correct(ab, target);
    lemma_db_tree_walk_ready(db);
    match spec_find_index(ab, target) {
        None => {
            assert(false);
        },
        Some(f) => {
            assert(f.0 == j);
            lemma_walk_replay(db.layers, 0, f.0);
        },
    }
}

/// An address absent from a sorted store is reported as not found: the
/// proof request never invents a position for it.
pub proof fn lemma_absent_address_not_found(db: DbView, s: Seq<char>, target: Seq<u8>)
    requires
        spec_parse_address(s) == Some(target),
        db.addresses matches Some(ab) && ab.len() % 20 == 0 && sorted_addresses(ab) && (forall|
            j: int,
        | 0 <= j < addr_count(ab) ==> addr_at(ab, j) != target),
    ensures
        spec_build_proof(db, s) is NotFound,
{
    let ab = db.addresses.unwrap();
    assert(target.len() == 20);
    lemma_find_index_correct(ab, target);
    match spec_find_index(ab, target) {
        Some(f) => {
            assert(false);
        },
        None => {},
    }
}

} // verus!
verus! {

impl MerkleError {
    /// The message of the error, in words: the kind first, then any detail
    /// the operation recorded.
    pub open spec fn spec_message(&self) -> Seq<char> {
        match self {
            MerkleError::InvalidAddress(m) => "Invalid address: "@ + m@,
            MerkleError::InvalidHex(m) => "Invalid hex: "@ + m@,
            MerkleError::AddressNotFound => "Address not found in addresses.bin"@,
            MerkleError::InvalidLayer(m) => "Invalid layer: "@ + m@,
            MerkleError::FileIo(m) => "File I/O error: "@ + m@,
            MerkleError::MissingLayer(m) => "Missing layer: "@ + m@,
            MerkleError::CorruptedData(m) => "Corrupted data: "@ + m@,
            MerkleError::IndexOutOfBounds { level, index, count } => "Index "@ + dec_chars(
                index as int,
            ) + " out of bounds at level "@ + dec_chars(level as int) + " (count: "@ + dec_chars(
                count as int,
            ) + ")"@,
            MerkleError::Internal(m) => "Internal error: "@ + m@,
        }
    }

    /// Renders the error for display.
    pub fn message(&self) -> (r: String)
        ensures
            r@ == self.spec_message(),
    {
        match self {
            MerkleError::InvalidAddress(m) => String::from_str("Invalid address: ").concat(
                m.as_str(),
            ),
            MerkleError::InvalidHex(m) => String::from_str("Invalid hex: ").concat(m.as_str()),
            MerkleError::AddressNotFound => String::from_str(
                "Address not found in addresses.bin",
            ),
            MerkleError::InvalidLayer(m) => String::from_str("Invalid layer: ").concat(m.as_str()),
            MerkleError::FileIo(m) => String::from_str("File I/O error: ").concat(m.as_str()),
            MerkleError::MissingLayer(m) => String::from_str("Missing layer: ").concat(m.as_str()),
            MerkleError::CorruptedData(m) => String::from_str("Corrupted data: ").concat(
                m.as_str(),
            ),
            MerkleError::IndexOutOfBounds { level, index, count } => {
                let r = String::from_str("Index ").concat(usize_to_string(*index).as_str())
                    .concat(" out of bounds at level ").concat(usize_to_string(*level).as_str())
                    .concat(" (count: ").concat(usize_to_string(*count).as_str()).concat(")");
                proof {
                    assert(r@ =~= self.spec_message());
                }
                r
            },
            MerkleError::Internal(m) => String::from_str("Internal error: ").concat(m.as_str()),
        }
    }
}

} // verus!
