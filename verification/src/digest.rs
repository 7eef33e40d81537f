//! The content digest: a sum over the rows of the file table, kept up to date
//! by every write instead of being computed by a scan.
use vstd::prelude::*;
use crate::files;
use crate::files::{key_is_taken, FileModel, FileRow, Scope};
use crate::hash;
use crate::hash::{hex_sha256, hex_text, sha256};
use crate::history;
use crate::history::{MetaModel, MetaRow};
use crate::order;
use crate::schema;
use crate::schema::{ObjectModel, SchemaObject};
use crate::text;
use crate::text::{comes_before, contains_text, same_text};

verus! {

/// Four 64-bit sums that wrap around.
#[derive(Clone, Copy, PartialEq, Eq, Structural, Debug)]
pub struct Lanes {
    pub a: u64,
    pub b: u64,
    pub c: u64,
    pub d: u64,
}

/// Two to the power of 64.
pub open spec fn wrap() -> int {
    0x1_0000_0000_0000_0000
}

impl Lanes {
    /// One of the four lanes.
    pub open spec fn lane(self, k: int) -> u64 {
        if k == 0 {
            self.a
        } else if k == 1 {
            self.b
        } else if k == 2 {
            self.c
        } else {
            self.d
        }
    }
}

/// The lanes of zero.
pub open spec fn zero_lanes() -> Lanes {
    Lanes { a: 0, b: 0, c: 0, d: 0 }
}

/// `256` to the power of `n`.
pub open spec fn byte_limit(n: nat) -> nat
    decreases n,
{
    if n == 0 {
        1
    } else {
        256 * byte_limit((n - 1) as nat)
    }
}

/// The number that bytes stand for, the most significant first.
pub open spec fn big_endian(s: Seq<u8>) -> nat
    decreases s.len(),
{
    if s.len() == 0 {
        0
    } else {
        big_endian(s.drop_last()) * 256 + s.last() as nat
    }
}

/// The four lanes that 32 bytes stand for.
pub open spec fn lanes_of(s: Seq<u8>) -> Lanes {
    Lanes {
        a: big_endian(s.subrange(0, 8)) as u64,
        b: big_endian(s.subrange(8, 16)) as u64,
        c: big_endian(s.subrange(16, 24)) as u64,
        d: big_endian(s.subrange(24, 32)) as u64,
    }
}

/// What one row adds to the digest: the lanes of the SHA-256 of its path, a
/// zero byte and the hash of its content.
pub open spec fn row_lanes(path: Seq<char>, sha256: Seq<char>) -> Lanes {
    lanes_of(
        hash::sha256_of(
            vstd::utf8::encode_utf8(path) + seq![0u8] + vstd::utf8::encode_utf8(sha256),
        ),
    )
}

fn read_lane(data: &Vec<u8>, from: usize) -> (r: u64)
    requires
        from + 8 <= data.len(),
    ensures
        r == big_endian(data@.subrange(from as int, from + 8)),
{
    let mut v: u64 = 0;
    let mut i: usize = 0;
    while i < 8
        invariant
            i <= 8,
            from + 8 <= data.len(),
            v == big_endian(data@.subrange(from as int, from + i)),
            v < byte_limit(i as nat),
        decreases 8 - i,
    {
        proof {
            reveal_with_fuel(byte_limit, 9);
            assert(byte_limit(8) == wrap());
            assert(byte_limit((i + 1) as nat) == 256 * byte_limit(i as nat));
            assert(byte_limit((i + 1) as nat) <= byte_limit(8));
            assert(data@.subrange(from as int, from + i + 1).drop_last() =~= data@.subrange(
                from as int,
                from + i,
            ));
        }
        v = v * 256 + data[from + i] as u64;
        i += 1;
    }
    v
}

/// What one row adds to the digest.
pub fn content_row_hash(path: &str, sha: &str) -> (r: Lanes)
    ensures
        r == row_lanes(path@, sha@),
{
    let mut data: Vec<u8> = path.as_bytes_vec();
    data.push(0);
    let mut tail: Vec<u8> = sha.as_bytes_vec();
    data.append(&mut tail);
    assert(data@ =~= vstd::utf8::encode_utf8(path@) + seq![0u8] + vstd::utf8::encode_utf8(sha@));
    let sum = sha256(data.as_slice());
    Lanes {
        a: read_lane(&sum, 0),
        b: read_lane(&sum, 8),
        c: read_lane(&sum, 16),
        d: read_lane(&sum, 24),
    }
}

/// The state with a row added or taken away, lane by lane.
pub open spec fn folded(state: Lanes, row: Lanes, adding: bool) -> Lanes {
    if adding {
        Lanes {
            a: state.a.wrapping_add(row.a),
            b: state.b.wrapping_add(row.b),
            c: state.c.wrapping_add(row.c),
            d: state.d.wrapping_add(row.d),
        }
    } else {
        Lanes {
            a: state.a.wrapping_sub(row.a),
            b: state.b.wrapping_sub(row.b),
            c: state.c.wrapping_sub(row.c),
            d: state.d.wrapping_sub(row.d),
        }
    }
}

/// Adds a row to the state or takes it away.
pub fn fold_row(state: &mut Lanes, row: &Lanes, adding: bool)
    ensures
        *final(state) == folded(*old(state), *row, adding),
{
    if adding {
        *state = Lanes {
            a: state.a.wrapping_add(row.a),
            b: state.b.wrapping_add(row.b),
            c: state.c.wrapping_add(row.c),
            d: state.d.wrapping_add(row.d),
        };
    } else {
        *state = Lanes {
            a: state.a.wrapping_sub(row.a),
            b: state.b.wrapping_sub(row.b),
            c: state.c.wrapping_sub(row.c),
            d: state.d.wrapping_sub(row.d),
        };
    }
}

/// Taking away what was added gives the state back, and so does adding what
/// was taken away.
pub proof fn folding_is_undone(state: Lanes, row: Lanes, adding: bool)
    ensures
        folded(folded(state, row, adding), row, !adding) == state,
{
}

/// The order in which two rows are folded does not matter.
pub proof fn folding_commutes(state: Lanes, x: Lanes, y: Lanes, add_x: bool, add_y: bool)
    ensures
        folded(folded(state, x, add_x), y, add_y) == folded(folded(state, y, add_y), x, add_x),
{
}

/// The state in hexadecimal, sixteen digits per lane.
pub open spec fn encoded(state: Lanes) -> Seq<char> {
    hash::hex(state.a as nat, 16) + hash::hex(state.b as nat, 16) + hash::hex(state.c as nat, 16)
        + hash::hex(state.d as nat, 16)
}

/// Writes the state in hexadecimal.
pub fn encode_state(state: &Lanes) -> (r: String)
    ensures
        r@ == encoded(*state),
{
    let mut r = hex_text(state.a, 16);
    r.append(hex_text(state.b, 16).as_str());
    r.append(hex_text(state.c, 16).as_str());
    r.append(hex_text(state.d, 16).as_str());
    r
}

/// Different states are written differently, all with 64 digits.
pub proof fn encoding_is_injective(s: Lanes, t: Lanes)
    ensures
        encoded(s).len() == 64,
        encoded(s) == encoded(t) ==> s == t,
{
    hash::hex_has_width(s.a as nat, 16);
    hash::hex_has_width(s.b as nat, 16);
    hash::hex_has_width(s.c as nat, 16);
    hash::hex_has_width(s.d as nat, 16);
    hash::hex_has_width(t.a as nat, 16);
    hash::hex_has_width(t.b as nat, 16);
    hash::hex_has_width(t.c as nat, 16);
    hash::hex_has_width(t.d as nat, 16);
    if encoded(s) == encoded(t) {
        assert(hash::hex(s.a as nat, 16) =~= encoded(s).subrange(0, 16));
        assert(hash::hex(t.a as nat, 16) =~= encoded(t).subrange(0, 16));
        assert(hash::hex(s.b as nat, 16) =~= encoded(s).subrange(16, 32));
        assert(hash::hex(t.b as nat, 16) =~= encoded(t).subrange(16, 32));
        assert(hash::hex(s.c as nat, 16) =~= encoded(s).subrange(32, 48));
        assert(hash::hex(t.c as nat, 16) =~= encoded(t).subrange(32, 48));
        assert(hash::hex(s.d as nat, 16) =~= encoded(s).subrange(48, 64));
        assert(hash::hex(t.d as nat, 16) =~= encoded(t).subrange(48, 64));
        reveal_with_fuel(hash::hex_limit, 17);
        assert(hash::hex_limit(16) == wrap());
        hash::hex_is_injective(s.a as nat, t.a as nat, 16);
        hash::hex_is_injective(s.b as nat, t.b as nat, 16);
        hash::hex_is_injective(s.c as nat, t.c as nat, 16);
        hash::hex_is_injective(s.d as nat, t.d as nat, 16);
    }
}

/// The row counts: it is not the mark left by a deleted file.
pub open spec fn is_member(f: FileModel) -> bool {
    f.kind != "deleted"@
}

/// What a row adds to lane `k`.
pub open spec fn share(f: FileModel, k: int) -> int {
    if is_member(f) {
        row_lanes(f.path, f.sha256).lane(k) as int
    } else {
        0
    }
}

/// The sum of lane `k` over all rows.
pub open spec fn total(rows: Seq<FileModel>, k: int) -> int
    decreases rows.len(),
{
    if rows.len() == 0 {
        0
    } else {
        total(rows.drop_last(), k) + share(rows.last(), k)
    }
}

/// How many rows count.
pub open spec fn members(rows: Seq<FileModel>) -> nat
    decreases rows.len(),
{
    if rows.len() == 0 {
        0
    } else {
        members(rows.drop_last()) + if is_member(rows.last()) {
            1nat
        } else {
            0
        }
    }
}

/// The digest of a file table, from the rows alone.
pub open spec fn scan_state(rows: Seq<FileModel>) -> Lanes {
    Lanes {
        a: (total(rows, 0) % wrap()) as u64,
        b: (total(rows, 1) % wrap()) as u64,
        c: (total(rows, 2) % wrap()) as u64,
        d: (total(rows, 3) % wrap()) as u64,
    }
}

/// Tables whose rows count alike have one digest.
pub proof fn totals_of_alike(r1: Seq<FileModel>, r2: Seq<FileModel>, k: int)
    requires
        r1.len() == r2.len(),
        forall|i: int|
            0 <= i < r1.len() ==> share(#[trigger] r1[i], k) == share(r2[i], k) && is_member(r1[i])
                == is_member(r2[i]),
    ensures
        total(r1, k) == total(r2, k),
        members(r1) == members(r2),
    decreases r1.len(),
{
    if r1.len() > 0 {
        let a = r1.drop_last();
        let b = r2.drop_last();
        assert forall|i: int| 0 <= i < a.len() implies share(#[trigger] a[i], k) == share(b[i], k)
            && is_member(a[i]) == is_member(b[i]) by {
            assert(a[i] == r1[i] && b[i] == r2[i]);
        }
        totals_of_alike(a, b, k);
        assert(r1[r1.len() - 1] == r1.last());
    }
}

proof fn total_updated(rows: Seq<FileModel>, i: int, f: FileModel, k: int)
    requires
        0 <= i < rows.len(),
    ensures
        total(rows.update(i, f), k) == total(rows, k) - share(rows[i], k) + share(f, k),
        members(rows.update(i, f)) - (if is_member(f) {
            1int
        } else {
            0
        }) == members(rows) - (if is_member(rows[i]) {
            1int
        } else {
            0
        }),
    decreases rows.len(),
{
    let u = rows.update(i, f);
    if i == rows.len() - 1 {
        assert(u.drop_last() =~= rows.drop_last());
    } else {
        total_updated(rows.drop_last(), i, f, k);
        assert(u.drop_last() =~= rows.drop_last().update(i, f));
    }
}

proof fn total_removed(rows: Seq<FileModel>, i: int, k: int)
    requires
        0 <= i < rows.len(),
    ensures
        total(rows.remove(i), k) == total(rows, k) - share(rows[i], k),
        members(rows.remove(i)) == members(rows) - (if is_member(rows[i]) {
            1int
        } else {
            0
        }),
    decreases rows.len(),
{
    let u = rows.remove(i);
    if i == rows.len() - 1 {
        assert(u =~= rows.drop_last());
    } else {
        total_removed(rows.drop_last(), i, k);
        assert(u.drop_last() =~= rows.drop_last().remove(i));
    }
}

/// The paths of the rows that count, each with the hash of its content.
pub open spec fn live_pairs(rows: Seq<FileModel>) -> Seq<(Seq<char>, Seq<char>)>
    decreases rows.len(),
{
    if rows.len() == 0 {
        Seq::empty()
    } else {
        let rest = live_pairs(rows.drop_last());
        if is_member(rows.last()) {
            rest.push((rows.last().path, rows.last().sha256))
        } else {
            rest
        }
    }
}

spec fn pair_total(pairs: Seq<(Seq<char>, Seq<char>)>, k: int) -> int
    decreases pairs.len(),
{
    if pairs.len() == 0 {
        0
    } else {
        pair_total(pairs.drop_last(), k) + row_lanes(pairs.last().0, pairs.last().1).lane(k)
    }
}

proof fn pairs_count(rows: Seq<FileModel>, k: int)
    ensures
        total(rows, k) == pair_total(live_pairs(rows), k),
        members(rows) == live_pairs(rows).len(),
    decreases rows.len(),
{
    if rows.len() > 0 {
        pairs_count(rows.drop_last(), k);
        if is_member(rows.last()) {
            assert(live_pairs(rows).drop_last() =~= live_pairs(rows.drop_last()));
        }
    }
}

proof fn pair_removed(pairs: Seq<(Seq<char>, Seq<char>)>, i: int, k: int)
    requires
        0 <= i < pairs.len(),
    ensures
        pair_total(pairs.remove(i), k) == pair_total(pairs, k) - row_lanes(
            pairs[i].0,
            pairs[i].1,
        ).lane(k),
    decreases pairs.len(),
{
    let u = pairs.remove(i);
    if i == pairs.len() - 1 {
        assert(u =~= pairs.drop_last());
    } else {
        pair_removed(pairs.drop_last(), i, k);
        assert(u.drop_last() =~= pairs.drop_last().remove(i));
    }
}

/// The digest is that of a multiset of contents: tables whose rows that count have
/// the same paths and hashes, each pair as often, have the same digest whatever
/// the order of the rows and whatever else they say.
pub proof fn digest_ignores_order(r1: Seq<FileModel>, r2: Seq<FileModel>)
    requires
        live_pairs(r1).to_multiset() == live_pairs(r2).to_multiset(),
    ensures
        scan_state(r1) == scan_state(r2),
        members(r1) == members(r2),
{
    broadcast use vstd::seq_lib::group_to_multiset_ensures;

    let (p1, p2) = (live_pairs(r1), live_pairs(r2));
    assert(p1.to_multiset().len() == p1.len());
    assert(p2.to_multiset().len() == p2.len());
    assert forall|k: int| #[trigger] total(r1, k) == total(r2, k) by {
        pairs_count(r1, k);
        pairs_count(r2, k);
        totals_ignore_order(p1, p2, k);
    }
    pairs_count(r1, 0);
    pairs_count(r2, 0);
    assert(total(r1, 0) == total(r2, 0) && total(r1, 1) == total(r2, 1));
    assert(total(r1, 2) == total(r2, 2) && total(r1, 3) == total(r2, 3));
}

proof fn totals_ignore_order(
    r1: Seq<(Seq<char>, Seq<char>)>,
    r2: Seq<(Seq<char>, Seq<char>)>,
    k: int,
)
    requires
        r1.to_multiset() == r2.to_multiset(),
    ensures
        pair_total(r1, k) == pair_total(r2, k),
    decreases r1.len(),
{
    broadcast use vstd::seq_lib::group_to_multiset_ensures;

    assert(r1.to_multiset().len() == r1.len());
    assert(r2.to_multiset().len() == r2.len());
    if r1.len() > 0 {
        let x = r1.last();
        assert(r1.contains(x));
        assert(r1.to_multiset().count(x) > 0);
        assert(r2.contains(x));
        let i = choose|i: int| 0 <= i < r2.len() && r2[i] == x;
        pair_removed(r2, i, k);
        assert(r1.drop_last() =~= r1.remove(r1.len() - 1));
        assert(r1.drop_last().to_multiset() =~= r1.to_multiset().remove(x));
        assert(r2.remove(i).to_multiset() =~= r2.to_multiset().remove(x));
        totals_ignore_order(r1.drop_last(), r2.remove(i), k);
    }
}

/// A setting of the whole index.
pub struct IndexMeta {
    pub key: String,
    pub value: String,
}

/// A generation of the clone graph and the content it was built from.
pub struct CloneGeneration {
    pub generation: u64,
    pub source_revision: String,
}

/// The file table, its digest, and the stamps that compare against the digest.
///
/// While a fold trigger is in place, a write needs the fold function to be
/// registered on the connection.
pub struct DigestStore {
    pub files: Vec<FileRow>,
    pub state: Lanes,
    pub rows_folded: i64,
    pub objects: Vec<SchemaObject>,
    pub fold_registered: bool,
    pub index_meta: Vec<IndexMeta>,
    pub generations: Vec<CloneGeneration>,
    pub repo_meta: Vec<MetaRow>,
}

/// What a [`DigestStore`] holds, as plain values.
#[verifier::ext_equal]
pub struct DigestModel {
    pub files: Seq<FileModel>,
    pub state: Lanes,
    pub rows_folded: i64,
    pub objects: Seq<ObjectModel>,
    pub fold_registered: bool,
    pub index_meta: Seq<(Seq<char>, Seq<char>)>,
    pub generations: Seq<(u64, Seq<char>)>,
    pub repo_meta: Seq<MetaModel>,
}

pub open spec fn index_meta_models(rows: Seq<IndexMeta>) -> Seq<(Seq<char>, Seq<char>)> {
    rows.map_values(|r: IndexMeta| (r.key@, r.value@))
}

pub open spec fn generation_models(rows: Seq<CloneGeneration>) -> Seq<(u64, Seq<char>)> {
    rows.map_values(|r: CloneGeneration| (r.generation, r.source_revision@))
}

impl View for DigestStore {
    type V = DigestModel;

    open spec fn view(&self) -> DigestModel {
        DigestModel {
            files: files::file_models(self.files@),
            state: self.state,
            rows_folded: self.rows_folded,
            objects: schema::object_models(self.objects@),
            fold_registered: self.fold_registered,
            index_meta: index_meta_models(self.index_meta@),
            generations: generation_models(self.generations@),
            repo_meta: history::meta_models(self.repo_meta@),
        }
    }
}

/// A write that could not be folded.
#[derive(Clone, Copy, PartialEq, Eq, Structural, Debug)]
pub enum DigestError {
    /// A trigger calls the fold function, which the connection does not have.
    NoSuchFunction,
    /// Two rows would stand for one file in one snapshot.
    DuplicateKey,
}

impl DigestError {
    /// The error in words.
    pub fn message(&self) -> (r: String)
        ensures
            r@ == match *self {
                DigestError::NoSuchFunction => "no such function: content_digest_fold"@,
                DigestError::DuplicateKey =>
                    "UNIQUE constraint failed: files.repo_id, files.path, files.commit_sha, files.worktree_id, files.generation"@,
            },
    {
        match self {
            DigestError::NoSuchFunction => "no such function: content_digest_fold".to_owned(),
            DigestError::DuplicateKey =>
                "UNIQUE constraint failed: files.repo_id, files.path, files.commit_sha, files.worktree_id, files.generation".to_owned(),
        }
    }
}

impl DigestModel {
    /// The schema holds the trigger.
    pub open spec fn has_trigger(self, name: Seq<char>) -> bool {
        schema::holds_object(self.objects, "trigger"@, name)
    }

    /// All three fold triggers are in place.
    pub open spec fn triggers_live(self) -> bool {
        &&& self.has_trigger("files_content_digest_ai"@)
        &&& self.has_trigger("files_content_digest_ad"@)
        &&& self.has_trigger("files_content_digest_au"@)
    }

    /// A write that the trigger folds cannot be made.
    pub open spec fn refuses(self, trigger: Seq<char>) -> bool {
        self.has_trigger(trigger) && !self.fold_registered
    }

    /// How far lane `k` of the stored state is from that of the rows.
    pub open spec fn drift(self, k: int) -> int {
        (self.state.lane(k) - total(self.files, k)) % wrap()
    }

    /// How far the stored count is from that of the rows.
    pub open spec fn count_drift(self) -> int {
        self.rows_folded - members(self.files)
    }

    /// The stored state and count are those of the rows.
    pub open spec fn has_parity(self) -> bool {
        self.state == scan_state(self.files) && self.rows_folded == members(self.files)
    }

    /// The drifts are the same in both.
    pub open spec fn same_drift(self, other: DigestModel) -> bool {
        &&& self.drift(0) == other.drift(0)
        &&& self.drift(1) == other.drift(1)
        &&& self.drift(2) == other.drift(2)
        &&& self.drift(3) == other.drift(3)
        &&& self.count_drift() == other.count_drift()
    }

    /// The digest is that of the other with the row folded in, where it counts.
    pub open spec fn follows(self, other: DigestModel, row: FileModel) -> bool {
        if is_member(row) {
            self.state == folded(other.state, row_lanes(row.path, row.sha256), true)
                && self.rows_folded == other.rows_folded + 1
        } else {
            self.state == other.state && self.rows_folded == other.rows_folded
        }
    }

    /// Everything but the rows and their digest is the same in both.
    pub open spec fn same_surroundings(self, other: DigestModel) -> bool {
        &&& self.objects == other.objects
        &&& self.fold_registered == other.fold_registered
        &&& self.index_meta == other.index_meta
        &&& self.generations == other.generations
        &&& self.repo_meta == other.repo_meta
    }

    /// The stored count leaves room to count every row in or out.
    pub open spec fn countable(self) -> bool {
        i64::MIN + self.files.len() < self.rows_folded < i64::MAX - self.files.len()
    }
}

/// A write that keeps the drifts keeps parity.
pub proof fn parity_is_no_drift(before: DigestModel, after: DigestModel)
    requires
        before.has_parity(),
        after.same_drift(before),
    ensures
        after.has_parity(),
{
    no_drift_in_lane(before, 0);
    no_drift_in_lane(before, 1);
    no_drift_in_lane(before, 2);
    no_drift_in_lane(before, 3);
    lane_without_drift(after, 0);
    lane_without_drift(after, 1);
    lane_without_drift(after, 2);
    lane_without_drift(after, 3);
}

proof fn no_drift_in_lane(d: DigestModel, k: int)
    requires
        0 <= k < 4,
        d.state == scan_state(d.files),
    ensures
        d.drift(k) == 0,
{
    let t = total(d.files, k);
    assert(d.state.lane(k) == t % wrap());
    assert((t % wrap() - t) % wrap() == 0) by (nonlinear_arith)
        requires
            wrap() == 0x1_0000_0000_0000_0000,
    ;
}

proof fn lane_without_drift(d: DigestModel, k: int)
    requires
        0 <= k < 4,
        d.drift(k) == 0,
    ensures
        d.state.lane(k) == total(d.files, k) % wrap(),
{
    let t = total(d.files, k);
    let s = d.state.lane(k) as int;
    assert(s == t % wrap()) by (nonlinear_arith)
        requires
            (s - t) % wrap() == 0,
            0 <= s < wrap(),
            wrap() == 0x1_0000_0000_0000_0000,
    ;
}

proof fn drift_after_fold(s: u64, row: u64, t: int, adding: bool)
    ensures
        adding ==> (s.wrapping_add(row) - (t + row)) % wrap() == (s - t) % wrap(),
        !adding ==> (s.wrapping_sub(row) - (t - row)) % wrap() == (s - t) % wrap(),
{
    let x = s - t;
    assert((x - wrap()) % wrap() == x % wrap()) by (nonlinear_arith)
        requires
            wrap() == 0x1_0000_0000_0000_0000,
    ;
    assert((x + wrap()) % wrap() == x % wrap()) by (nonlinear_arith)
        requires
            wrap() == 0x1_0000_0000_0000_0000,
    ;
}

/// Whether the schema holds an object of this kind and name.
pub fn object_exists(conn: &DigestStore, kind: &str, name: &str) -> (r: bool)
    ensures
        r == schema::holds_object(conn@.objects, kind@, name@),
{
    let ghost all = conn@.objects;
    let mut i: usize = 0;
    while i < conn.objects.len()
        invariant
            i <= conn.objects.len(),
            all == schema::object_models(conn.objects@),
            forall|j: int|
                0 <= j < i ==> !((#[trigger] all[j]).kind == kind@ && all[j].name == name@),
        decreases conn.objects.len() - i,
    {
        assert(all[i as int] == conn.objects@[i as int]@);
        if same_text(conn.objects[i].kind.as_str(), kind) && same_text(
            conn.objects[i].name.as_str(),
            name,
        ) {
            return true;
        }
        i += 1;
    }
    false
}

fn is_member_row(f: &FileRow) -> (r: bool)
    ensures
        r == is_member(f@),
{
    !same_text(f.kind.as_str(), "deleted")
}

/// What the row adds to the digest, where it counts.
pub open spec fn contribution(f: FileModel) -> Option<Lanes> {
    if is_member(f) {
        Some(row_lanes(f.path, f.sha256))
    } else {
        None
    }
}

fn contribution_of(f: &FileRow) -> (r: Option<Lanes>)
    ensures
        r == contribution(f@),
{
    if is_member_row(f) {
        Some(content_row_hash(f.path.as_str(), f.sha256.as_str()))
    } else {
        None
    }
}

/// The state after something that was folded in is taken away and something
/// else is folded in.
pub open spec fn refolded(state: Lanes, was: Option<Lanes>, now: Option<Lanes>) -> Lanes {
    let s = match was {
        Some(l) => folded(state, l, false),
        None => state,
    };
    match now {
        Some(l) => folded(s, l, true),
        None => s,
    }
}

fn fold_change(conn: &mut DigestStore, was: Option<Lanes>, now: Option<Lanes>)
    requires
        i64::MIN < old(conn).rows_folded < i64::MAX,
    ensures
        *final(conn) == (DigestStore {
            state: final(conn).state,
            rows_folded: final(conn).rows_folded,
            ..*old(conn)
        }),
        final(conn).rows_folded == old(conn).rows_folded - (if was is Some {
            1int
        } else {
            0
        }) + (if now is Some {
            1int
        } else {
            0
        }),
        final(conn).state == refolded(old(conn).state, was, now),
{
    if let Some(lanes) = was {
        fold_row(&mut conn.state, &lanes, false);
        conn.rows_folded = conn.rows_folded - 1;
    }
    if let Some(lanes) = now {
        fold_row(&mut conn.state, &lanes, true);
        conn.rows_folded = conn.rows_folded + 1;
    }
}

proof fn drift_after_refold(state: Lanes, was: Option<Lanes>, now: Option<Lanes>, t: int, k: int)
    requires
        0 <= k < 4,
    ensures
        (refolded(state, was, now).lane(k) - (t - (match was {
            Some(l) => l.lane(k) as int,
            None => 0,
        }) + (match now {
            Some(l) => l.lane(k) as int,
            None => 0,
        }))) % wrap() == (state.lane(k) - t) % wrap(),
{
    let (s, t2) = match was {
        Some(l) => {
            drift_after_fold(state.lane(k), l.lane(k), t, false);
            (folded(state, l, false), t - l.lane(k))
        },
        None => (state, t),
    };
    match now {
        Some(l) => {
            drift_after_fold(s.lane(k), l.lane(k), t2, true);
        },
        None => {},
    }
}

fn replace_row(conn: &mut DigestStore, i: usize, row: FileRow)
    requires
        i < old(conn).files.len(),
        i64::MIN < old(conn).rows_folded < i64::MAX,
    ensures
        final(conn)@.files == old(conn)@.files.update(i as int, row@),
        final(conn)@.same_drift(old(conn)@),
        final(conn)@.same_surroundings(old(conn)@),
{
    let was = contribution_of(&conn.files[i]);
    let now = contribution_of(&row);
    let ghost before = conn@;
    fold_change(conn, was, now);
    conn.files.set(i, row);
    proof {
        assert(conn@.files =~= before.files.update(i as int, row@));
        assert(before.files[i as int] == old(conn).files@[i as int]@);
        assert forall|k: int| 0 <= k < 4 implies #[trigger] conn@.drift(k) == before.drift(k) by {
            total_updated(before.files, i as int, row@, k);
            drift_after_refold(before.state, was, now, total(before.files, k), k);
        }
        total_updated(before.files, i as int, row@, 0);
        assert(conn@.drift(0) == before.drift(0));
        assert(conn@.drift(1) == before.drift(1));
        assert(conn@.drift(2) == before.drift(2));
        assert(conn@.drift(3) == before.drift(3));
    }
}

fn remove_row(conn: &mut DigestStore, i: usize)
    requires
        i < old(conn).files.len(),
        i64::MIN < old(conn).rows_folded < i64::MAX,
    ensures
        final(conn)@.files == old(conn)@.files.remove(i as int),
        final(conn)@.same_drift(old(conn)@),
        final(conn)@.same_surroundings(old(conn)@),
{
    let was = contribution_of(&conn.files[i]);
    let ghost before = conn@;
    fold_change(conn, was, None);
    conn.files.remove(i);
    proof {
        assert(conn@.files =~= before.files.remove(i as int));
        assert(before.files[i as int] == old(conn).files@[i as int]@);
        assert forall|k: int| 0 <= k < 4 implies #[trigger] conn@.drift(k) == before.drift(k) by {
            total_removed(before.files, i as int, k);
            drift_after_refold(before.state, was, None, total(before.files, k), k);
        }
        total_removed(before.files, i as int, 0);
        assert(conn@.drift(0) == before.drift(0));
        assert(conn@.drift(1) == before.drift(1));
        assert(conn@.drift(2) == before.drift(2));
        assert(conn@.drift(3) == before.drift(3));
    }
}

/// Adds a row. With the insert trigger in place the row is folded in, or, where
/// the connection has no fold function, the write fails. It also fails where a
/// row with the same key is there. A write that fails changes nothing.
pub fn try_insert_file(conn: &mut DigestStore, row: FileRow) -> (r: Result<(), DigestError>)
    requires
        old(conn)@.countable(),
    ensures
        r == if old(conn)@.refuses("files_content_digest_ai"@) {
            Err(DigestError::NoSuchFunction)
        } else if files::holds_key(old(conn)@.files, row@) {
            Err(DigestError::DuplicateKey)
        } else {
            Ok::<(), DigestError>(())
        },
        r is Err ==> *final(conn) == *old(conn),
        r is Ok ==> {
            &&& final(conn)@.files == old(conn)@.files.push(row@)
            &&& final(conn)@.same_surroundings(old(conn)@)
            &&& if old(conn)@.has_trigger("files_content_digest_ai"@) {
                final(conn)@.same_drift(old(conn)@) && final(conn)@.follows(old(conn)@, row@)
            } else {
                final(conn)@.state == old(conn)@.state && final(conn)@.rows_folded == old(
                    conn,
                )@.rows_folded
            }
        },
{
    let fires: bool = object_exists(conn, "trigger", "files_content_digest_ai");
    if fires && !conn.fold_registered {
        return Err(DigestError::NoSuchFunction);
    }
    if key_is_taken(&conn.files, &row) {
        return Err(DigestError::DuplicateKey);
    }
    let ghost before = conn@;
    if fires {
        let now = contribution_of(&row);
        fold_change(conn, None, now);
        conn.files.push(row);
        proof {
            assert(conn@.files =~= before.files.push(row@));
            assert(conn@.files.drop_last() =~= before.files);
            assert forall|k: int| 0 <= k < 4 implies #[trigger] conn@.drift(k) == before.drift(
                k,
            ) by {
                drift_after_refold(before.state, None, now, total(before.files, k), k);
            }
            assert(conn@.drift(0) == before.drift(0));
            assert(conn@.drift(1) == before.drift(1));
            assert(conn@.drift(2) == before.drift(2));
            assert(conn@.drift(3) == before.drift(3));
        }
    } else {
        conn.files.push(row);
        assert(conn@.files =~= before.files.push(row@));
    }
    Ok(())
}

proof fn members_bounded(rows: Seq<FileModel>)
    ensures
        members(rows) <= rows.len(),
    decreases rows.len(),
{
    if rows.len() > 0 {
        members_bounded(rows.drop_last());
    }
}

/// What a write sets in the rows that it changes.
pub enum RowChange {
    /// The hash of the content.
    Sha256(String),
    /// The kind and the hash of the content.
    KindAndSha256(String, String),
    /// The path.
    Path(String),
    /// Whether the file is generated, which the digest does not look at.
    Generated(bool),
}

/// The row after the change.
pub open spec fn changed(f: FileModel, change: RowChange) -> FileModel {
    match change {
        RowChange::Sha256(sha) => FileModel { sha256: sha@, ..f },
        RowChange::KindAndSha256(kind, sha) => FileModel { kind: kind@, sha256: sha@, ..f },
        RowChange::Path(path) => FileModel { path: path@, ..f },
        RowChange::Generated(generated) => FileModel { generated, ..f },
    }
}

fn changed_row(f: &FileRow, change: &RowChange) -> (r: FileRow)
    ensures
        r@ == changed(f@, *change),
{
    let mut r = f.copy();
    match change {
        RowChange::Sha256(sha) => {
            r.sha256 = sha.clone();
        },
        RowChange::KindAndSha256(kind, sha) => {
            r.kind = kind.clone();
            r.sha256 = sha.clone();
        },
        RowChange::Path(path) => {
            r.path = path.clone();
        },
        RowChange::Generated(generated) => {
            r.generated = *generated;
        },
    }
    r
}

/// The rows with every one at `path` changed.
pub open spec fn rows_changed(rows: Seq<FileModel>, path: Seq<char>, change: RowChange) -> Seq<
    FileModel,
> {
    rows.map_values(
        |f: FileModel|
            if f.path == path {
                changed(f, change)
            } else {
                f
            },
    )
}

/// A row at `path` would be moved to where another one is.
pub open spec fn clashes(rows: Seq<FileModel>, path: Seq<char>, change: RowChange) -> bool {
    change is Path && change->Path_0@ != path && exists|i: int|
        0 <= i < rows.len() && (#[trigger] rows[i]).path == path && files::holds_key(
            rows,
            changed(rows[i], change),
        )
}

fn change_clashes(rows: &Vec<FileRow>, path: &String, change: &RowChange) -> (r: bool)
    ensures
        r == clashes(files::file_models(rows@), path@, *change),
{
    let ghost all = files::file_models(rows@);
    match change {
        RowChange::Path(to) => {
            if *to == *path {
                return false;
            }
        },
        _ => {
            return false;
        },
    }
    let mut i: usize = 0;
    while i < rows.len()
        invariant
            i <= rows.len(),
            all == files::file_models(rows@),
            change is Path && change->Path_0@ != path@,
            forall|j: int|
                0 <= j < i ==> !((#[trigger] all[j]).path == path@ && files::holds_key(
                    all,
                    changed(all[j], *change),
                )),
        decreases rows.len() - i,
    {
        assert(all[i as int] == rows@[i as int]@);
        if rows[i].path == *path && key_is_taken(rows, &changed_row(&rows[i], change)) {
            return true;
        }
        i += 1;
    }
    false
}

/// Changes every row at `path`. The digest follows where the change is one that
/// it looks at and the update trigger is in place; such a write fails where the
/// connection has no fold function. One that would move a row to where another is
/// fails too. A write that fails changes nothing.
pub fn update_files(conn: &mut DigestStore, path: &str, change: RowChange) -> (r: Result<
    (),
    DigestError,
>)
    requires
        old(conn)@.countable(),
    ensures
        r == if !(change is Generated) && old(conn)@.refuses("files_content_digest_au"@) {
            Err(DigestError::NoSuchFunction)
        } else if clashes(old(conn)@.files, path@, change) {
            Err(DigestError::DuplicateKey)
        } else {
            Ok::<(), DigestError>(())
        },
        r is Err ==> *final(conn) == *old(conn),
        r is Ok ==> {
            &&& final(conn)@.files == rows_changed(old(conn)@.files, path@, change)
            &&& final(conn)@.same_surroundings(old(conn)@)
            &&& if old(conn)@.has_trigger("files_content_digest_au"@) && !(change is Generated) {
                final(conn)@.same_drift(old(conn)@)
            } else {
                final(conn)@.state == old(conn)@.state && final(conn)@.rows_folded == old(
                    conn,
                )@.rows_folded
            }
        },
{
    let fires: bool = match &change {
        RowChange::Generated(_) => false,
        _ => object_exists(conn, "trigger", "files_content_digest_au"),
    };
    if fires && !conn.fold_registered {
        return Err(DigestError::NoSuchFunction);
    }
    let wanted = path.to_owned();
    if change_clashes(&conn.files, &wanted, &change) {
        return Err(DigestError::DuplicateKey);
    }
    let ghost before = conn@;
    let ghost after = rows_changed(before.files, path@, change);
    let mut i: usize = 0;
    while i < conn.files.len()
        invariant
            i <= conn.files.len(),
            conn.files.len() == before.files.len(),
            before == old(conn)@,
            before.countable(),
            wanted@ == path@,
            after == rows_changed(before.files, path@, change),
            conn@.same_surroundings(before),
            forall|j: int| 0 <= j < i ==> #[trigger] conn@.files[j] == after[j],
            forall|j: int| i <= j < before.files.len() ==> #[trigger] conn@.files[j] == before.files[j],
            fires ==> conn@.same_drift(before),
            !fires ==> conn.state == before.state && conn.rows_folded == before.rows_folded,
        decreases conn.files.len() - i,
    {
        let ghost now = conn@;
        proof {
            members_bounded(now.files);
            members_bounded(before.files);
            assert(now.files[i as int] == conn.files@[i as int]@);
        }
        if conn.files[i].path == wanted {
            let row = changed_row(&conn.files[i], &change);
            if fires {
                replace_row(conn, i, row);
            } else {
                conn.files.set(i, row);
                assert(conn@.files =~= now.files.update(i as int, row@));
            }
        }
        i += 1;
    }
    assert(conn@.files =~= after);
    Ok(())
}

/// Which rows a delete takes away.
pub enum RowFilter {
    /// Those at a path.
    Path(String),
    /// Those at a path in one generation.
    PathInGeneration(String, u64),
    /// Those of a repository.
    Repository(String),
    /// Those that a worktree has in a repository.
    Worktree(String, String),
    /// Those at a path of a repository in one snapshot and one generation.
    Exact(Scope, String),
    /// Those of a repository that are of another generation, or of a base or a
    /// worktree that is not among the live ones.
    Dead(LiveParts),
}

/// What lives of a repository: one generation, and in it the base of some commits
/// and some worktrees.
pub struct LiveParts {
    pub repo_id: String,
    pub generation: u64,
    pub commits: Vec<String>,
    pub worktrees: Vec<String>,
}

/// Which file of which snapshot a row, or what was read out of its file, is of.
#[verifier::ext_equal]
pub struct RowKey {
    pub repo_id: Seq<char>,
    pub path: Seq<char>,
    pub commit_sha: Seq<char>,
    pub worktree_id: Seq<char>,
    pub generation: u64,
}

/// The key of the row.
pub open spec fn key_of(f: FileModel) -> RowKey {
    RowKey {
        repo_id: f.repo_id,
        path: f.path,
        commit_sha: f.commit_sha,
        worktree_id: f.worktree_id,
        generation: f.generation,
    }
}

/// The base of the commit, or the worktree, is among the live ones.
pub open spec fn is_live_part(
    p: RowKey,
    commits: Seq<Seq<char>>,
    worktrees: Seq<Seq<char>>,
) -> bool {
    if p.worktree_id.len() == 0 {
        commits.contains(p.commit_sha)
    } else {
        worktrees.contains(p.worktree_id)
    }
}

/// The filter picks what has the key.
pub open spec fn picks_key(filter: RowFilter, p: RowKey) -> bool {
    match filter {
        RowFilter::Path(path) => p.path == path@,
        RowFilter::PathInGeneration(path, generation) => p.path == path@ && p.generation
            == generation,
        RowFilter::Repository(repo) => p.repo_id == repo@,
        RowFilter::Worktree(repo, worktree) => p.repo_id == repo@ && p.worktree_id == worktree@,
        RowFilter::Exact(at, path) => p.repo_id == at.repo_id@ && p.path == path@ && p.worktree_id
            == at.worktree_id@ && p.generation == at.generation && (p.worktree_id.len() > 0
            || p.commit_sha == at.commit_sha@),
        RowFilter::Dead(live) => p.repo_id == live.repo_id@ && (p.generation != live.generation
            || !is_live_part(p, text::views(live.commits@), text::views(live.worktrees@))),
    }
}

/// The filter picks the row.
pub open spec fn picks(filter: RowFilter, f: FileModel) -> bool {
    picks_key(filter, key_of(f))
}

/// Whether the filter picks what has the key.
pub fn key_is_picked(
    filter: &RowFilter,
    repo_id: &String,
    path: &String,
    commit_sha: &String,
    worktree_id: &String,
    generation: u64,
) -> (r: bool)
    ensures
        r == picks_key(
            *filter,
            (RowKey {
                repo_id: repo_id@,
                path: path@,
                commit_sha: commit_sha@,
                worktree_id: worktree_id@,
                generation,
            }),
        ),
{
    match filter {
        RowFilter::Path(wanted) => *path == *wanted,
        RowFilter::PathInGeneration(wanted, g) => *path == *wanted && generation == *g,
        RowFilter::Repository(repo) => *repo_id == *repo,
        RowFilter::Worktree(repo, worktree) => *repo_id == *repo && *worktree_id == *worktree,
        RowFilter::Exact(at, wanted) => *repo_id == at.repo_id && *path == *wanted && *worktree_id
            == at.worktree_id && generation == at.generation && (
        worktree_id.as_str().unicode_len() > 0 || *commit_sha == at.commit_sha),
        RowFilter::Dead(live) => *repo_id == live.repo_id && (generation != live.generation || !(
        if worktree_id.as_str().unicode_len() == 0 {
            contains_text(&live.commits, commit_sha.as_str())
        } else {
            contains_text(&live.worktrees, worktree_id.as_str())
        })),
    }
}

fn picks_row(filter: &RowFilter, f: &FileRow) -> (r: bool)
    ensures
        r == picks(*filter, f@),
{
    key_is_picked(filter, &f.repo_id, &f.path, &f.commit_sha, &f.worktree_id, f.generation)
}

/// Deletes the rows that the filter picks. With the delete trigger in place
/// they are folded out; such a write fails, and changes nothing, where the
/// connection has no fold function.
pub fn delete_files(conn: &mut DigestStore, filter: RowFilter) -> (r: Result<(), DigestError>)
    requires
        old(conn)@.countable(),
    ensures
        r is Err <==> old(conn)@.refuses("files_content_digest_ad"@),
        r is Err ==> *final(conn) == *old(conn),
        r is Ok ==> {
            &&& final(conn)@.files == old(conn)@.files.filter(|f: FileModel| !picks(filter, f))
            &&& final(conn)@.same_surroundings(old(conn)@)
            &&& if old(conn)@.has_trigger("files_content_digest_ad"@) {
                final(conn)@.same_drift(old(conn)@)
            } else {
                final(conn)@.state == old(conn)@.state && final(conn)@.rows_folded == old(
                    conn,
                )@.rows_folded
            }
        },
{
    let fires: bool = object_exists(conn, "trigger", "files_content_digest_ad");
    if fires && !conn.fold_registered {
        return Err(DigestError::NoSuchFunction);
    }
    let ghost before = conn@;
    let ghost stays = |f: FileModel| !picks(filter, f);
    let ghost mut done: int = 0;
    let mut i: usize = 0;
    proof {
        reveal(Seq::filter);
        assert(before.files.take(0).filter(stays) =~= Seq::empty());
    }
    while i < conn.files.len()
        invariant
            i <= conn.files.len(),
            before == old(conn)@,
            before.countable(),
            stays == (|f: FileModel| !picks(filter, f)),
            0 <= done <= before.files.len(),
            conn.files.len() - i == before.files.len() - done,
            conn@.files.take(i as int) == before.files.take(done).filter(stays),
            forall|j: int|
                done <= j < before.files.len() ==> #[trigger] before.files[j] == conn@.files[j
                    - done + i],
            conn@.same_surroundings(before),
            fires ==> conn@.same_drift(before),
            !fires ==> conn.state == before.state && conn.rows_folded == before.rows_folded,
        decreases conn.files.len() - i,
    {
        let ghost now = conn@;
        proof {
            members_bounded(now.files);
            members_bounded(before.files);
            assert(now.files[i as int] == conn.files@[i as int]@);
            assert(before.files[done] == now.files[i as int]);
            assert(before.files.take(done + 1).drop_last() =~= before.files.take(done));
            assert(before.files.take(done + 1).last() == before.files[done]);
            reveal(Seq::filter);
            before.files.take(done).lemma_filter_len(stays);
        }
        if picks_row(&filter, &conn.files[i]) {
            if fires {
                remove_row(conn, i);
            } else {
                conn.files.remove(i);
                assert(conn@.files =~= now.files.remove(i as int));
            }
            assert(conn@.files.take(i as int) =~= now.files.take(i as int));
            assert forall|j: int| done + 1 <= j < before.files.len() implies #[trigger]
                before.files[j] == conn@.files[j - (done + 1) + i] by {
                assert(before.files[j] == now.files[j - done + i]);
            }
        } else {
            assert(now.files.take(i + 1) =~= now.files.take(i as int).push(now.files[i as int]));
            i += 1;
        }
        proof {
            done = done + 1;
        }
    }
    proof {
        assert(before.files.take(done) =~= before.files);
        assert(conn@.files.take(i as int) =~= conn@.files);
    }
    Ok(())
}

/// Deletes every row of a repository.
pub fn purge_repo_rows(conn: &mut DigestStore, repo_id: &str) -> (r: Result<(), DigestError>)
    requires
        old(conn)@.countable(),
    ensures
        r is Err <==> old(conn)@.refuses("files_content_digest_ad"@),
        r is Err ==> *final(conn) == *old(conn),
        r is Ok ==> {
            &&& final(conn)@.files == old(conn)@.files.filter(|f: FileModel| f.repo_id != repo_id@)
            &&& final(conn)@.same_surroundings(old(conn)@)
            &&& if old(conn)@.has_trigger("files_content_digest_ad"@) {
                final(conn)@.same_drift(old(conn)@)
            } else {
                final(conn)@.state == old(conn)@.state && final(conn)@.rows_folded == old(
                    conn,
                )@.rows_folded
            }
        },
{
    let filter = RowFilter::Repository(repo_id.to_owned());
    let ghost stays = |f: FileModel| !picks(filter, f);
    let ghost others = |f: FileModel| f.repo_id != repo_id@;
    assert(stays =~= others);
    delete_files(conn, filter)
}

fn add_object(conn: &mut DigestStore, kind: &str, name: &str, table: &str)
    ensures
        final(conn)@ == (DigestModel {
            objects: schema::with_object(
                old(conn)@.objects,
                ObjectModel { kind: kind@, name: name@, table: table@ },
            ),
            ..old(conn)@
        }),
{
    if !object_exists(conn, kind, name) {
        let object = SchemaObject {
            kind: kind.to_owned(),
            name: name.to_owned(),
            table: table.to_owned(),
        };
        conn.objects.push(object);
        assert(conn@.objects =~= old(conn)@.objects.push(object@));
    }
}

/// Makes sure that the three fold triggers are in place.
pub fn ensure_content_digest(conn: &mut DigestStore)
    ensures
        final(conn)@ == (DigestModel {
            objects: schema::with_fold_triggers(old(conn)@.objects),
            ..old(conn)@
        }),
        final(conn)@.triggers_live(),
{
    add_object(conn, "trigger", "files_content_digest_ai", "files");
    add_object(conn, "trigger", "files_content_digest_ad", "files");
    add_object(conn, "trigger", "files_content_digest_au", "files");
    proof {
        schema::fold_triggers_are_added(old(conn)@.objects, "table"@, "files"@);
    }
}

/// Rebuilds the file table: the rows stay, and what stood on the old table goes
/// with it. Nothing is folded.
pub fn rebuild_files_table(conn: &mut DigestStore)
    requires
        schema::holds_object(old(conn)@.objects, "table"@, "files"@),
    ensures
        final(conn)@ == (DigestModel {
            objects: schema::without_file_triggers(old(conn)@.objects),
            ..old(conn)@
        }),
{
    let ghost all = conn@.objects;
    let ghost stays = |o: ObjectModel| !schema::hangs_on_files(o);
    let mut kept: Vec<SchemaObject> = Vec::new();
    let mut i: usize = 0;
    proof {
        reveal(Seq::filter);
        assert(schema::object_models(kept@) =~= Seq::empty());
    }
    while i < conn.objects.len()
        invariant
            i <= conn.objects.len(),
            *conn == *old(conn),
            all == schema::object_models(conn.objects@),
            stays == (|o: ObjectModel| !schema::hangs_on_files(o)),
            schema::object_models(kept@) == all.take(i as int).filter(stays),
        decreases conn.objects.len() - i,
    {
        proof {
            assert(all.take(i + 1).drop_last() =~= all.take(i as int));
            assert(all.take(i + 1).last() == conn.objects@[i as int]@);
            reveal(Seq::filter);
        }
        if !schema::is_on_files(&conn.objects[i]) {
            let ghost old_kept = schema::object_models(kept@);
            let object = SchemaObject {
                kind: conn.objects[i].kind.clone(),
                name: conn.objects[i].name.clone(),
                table: conn.objects[i].table.clone(),
            };
            kept.push(object);
            assert(schema::object_models(kept@) =~= old_kept.push(object@));
        }
        i += 1;
    }
    assert(all.take(i as int) =~= all);
    conn.objects = kept;
}

/// An empty file table with its digest, the tables of the index, and the fold
/// triggers in place.
///
/// Not said: which other objects the schema holds.
pub fn apply_schema() -> (r: DigestStore)
    ensures
        r@.files.len() == 0,
        r@.state == zero_lanes(),
        r@.rows_folded == 0,
        r@.has_parity(),
        r@.triggers_live(),
        r@.fold_registered,
        r@.index_meta.len() == 0,
        r@.generations.len() == 0,
        r@.repo_meta.len() == 0,
        schema::holds_object(r@.objects, "table"@, "files"@),
        schema::holds_object(r@.objects, "table"@, "content_digest_state"@),
        forall|k: int|
            0 <= k < schema::schema_tables().len() ==> schema::holds_object(
                r@.objects,
                "table"@,
                #[trigger] schema::schema_tables()[k],
            ),
        schema::only_on_files(r@.objects, "files_content_digest_ai"@),
        schema::only_on_files(r@.objects, "files_content_digest_ad"@),
        schema::only_on_files(r@.objects, "files_content_digest_au"@),
{
    let mut r = DigestStore {
        files: Vec::new(),
        state: Lanes { a: 0, b: 0, c: 0, d: 0 },
        rows_folded: 0,
        objects: schema::make_tables(),
        fold_registered: true,
        index_meta: Vec::new(),
        generations: Vec::new(),
        repo_meta: Vec::new(),
    };
    let ghost tables = r@.objects;
    ensure_content_digest(&mut r);
    proof {
        let names = schema::schema_tables();
        assert forall|k: int| 0 <= k < names.len() implies schema::holds_object(
            r@.objects,
            "table"@,
            #[trigger] names[k],
        ) by {
            assert(tables[k] == schema::table(names[k]));
            schema::fold_triggers_are_added(tables, "table"@, names[k]);
        }
        assert(names[0] == "files"@);
        assert(names[1] == "content_digest_state"@);
        reveal_strlit("table");
        reveal_strlit("trigger");
        assert("table"@.len() != "trigger"@.len());
        assert forall|k: int| 0 <= k < tables.len() implies (#[trigger] tables[k]).kind
            != "trigger"@ by {
            assert(tables[k] == schema::table(names[k]));
        }
        schema::fold_triggers_stand_on_files(tables, "files_content_digest_ai"@);
        schema::fold_triggers_stand_on_files(tables, "files_content_digest_ad"@);
        schema::fold_triggers_stand_on_files(tables, "files_content_digest_au"@);
    }
    r
}

/// The repository of the rows that [`insert_file`] adds.
pub const DIGEST_REPO_ID: &'static str = "r";

/// Adds a row of the base snapshot to a table whose digest follows.
pub fn insert_file(conn: &mut DigestStore, path: &str, sha: &str, kind: &str, generation: u64)
    requires
        old(conn)@.countable(),
        !old(conn)@.refuses("files_content_digest_ai"@),
        !files::holds_key(
            old(conn)@.files,
            files::base_model(
                DIGEST_REPO_ID@,
                path@,
                sha@,
                kind@,
                false,
                Seq::empty(),
                generation,
            ),
        ),
    ensures
        final(conn)@.files == old(conn)@.files.push(
            files::base_model(
                DIGEST_REPO_ID@,
                path@,
                sha@,
                kind@,
                false,
                Seq::empty(),
                generation,
            ),
        ),
        final(conn)@.same_surroundings(old(conn)@),
        if old(conn)@.has_trigger("files_content_digest_ai"@) {
            final(conn)@.same_drift(old(conn)@) && final(conn)@.follows(
                old(conn)@,
                files::base_model(
                    DIGEST_REPO_ID@,
                    path@,
                    sha@,
                    kind@,
                    false,
                    Seq::empty(),
                    generation,
                ),
            )
        } else {
            final(conn)@.state == old(conn)@.state && final(conn)@.rows_folded == old(
                conn,
            )@.rows_folded
        },
{
    let row = FileRow::of_base(DIGEST_REPO_ID, path, sha, kind, false, "", generation);
    proof {
        reveal_strlit("");
        assert(""@ =~= Seq::<char>::empty());
    }
    let _ = try_insert_file(conn, row);
}

proof fn scan_step(rows: Seq<FileModel>, k: int, s: u64)
    requires
        rows.len() > 0,
        s == total(rows.drop_last(), k) % wrap(),
        0 <= k < 4,
    ensures
        is_member(rows.last()) ==> s.wrapping_add(
            row_lanes(rows.last().path, rows.last().sha256).lane(k),
        ) == total(rows, k) % wrap(),
        !is_member(rows.last()) ==> s == total(rows, k) % wrap(),
{
    let t = total(rows.drop_last(), k);
    if is_member(rows.last()) {
        let h = row_lanes(rows.last().path, rows.last().sha256).lane(k);
        let v = s.wrapping_add(h);
        assert(v == (t + h) % wrap()) by (nonlinear_arith)
            requires
                s == t % wrap(),
                v == s + h || v == s + h - wrap(),
                0 <= v < wrap(),
                wrap() == 0x1_0000_0000_0000_0000,
        ;
    }
}

fn scan(conn: &DigestStore) -> (r: (Lanes, i64))
    requires
        conn.files.len() <= i64::MAX,
    ensures
        r.0 == scan_state(conn@.files),
        r.1 == members(conn@.files),
{
    let ghost all = conn@.files;
    let mut state = Lanes { a: 0, b: 0, c: 0, d: 0 };
    let mut count: i64 = 0;
    let mut i: usize = 0;
    while i < conn.files.len()
        invariant
            i <= conn.files.len(),
            conn.files.len() <= i64::MAX,
            all == files::file_models(conn.files@),
            state == scan_state(all.take(i as int)),
            count == members(all.take(i as int)),
            count <= i,
        decreases conn.files.len() - i,
    {
        proof {
            assert(all.take(i + 1).drop_last() =~= all.take(i as int));
            assert(all.take(i + 1).last() == conn.files@[i as int]@);
            scan_step(all.take(i + 1), 0, state.a);
            scan_step(all.take(i + 1), 1, state.b);
            scan_step(all.take(i + 1), 2, state.c);
            scan_step(all.take(i + 1), 3, state.d);
        }
        if is_member_row(&conn.files[i]) {
            let row = content_row_hash(
                conn.files[i].path.as_str(),
                conn.files[i].sha256.as_str(),
            );
            fold_row(&mut state, &row, true);
            count = count + 1;
        }
        i += 1;
    }
    assert(all.take(i as int) =~= all);
    (state, count)
}

/// The digest computed from the rows, and how many of them count.
pub fn digest_scan(conn: &DigestStore) -> (r: (String, i64))
    requires
        conn.files.len() <= i64::MAX,
    ensures
        r.0@ == encoded(scan_state(conn@.files)),
        r.1 == members(conn@.files),
{
    let (state, count) = scan(conn);
    (encode_state(&state), count)
}

/// The digest as it is stored, and the stored count.
pub fn digest_stored(conn: &DigestStore) -> (r: (String, i64))
    ensures
        r.0@ == encoded(conn@.state),
        r.1 == conn@.rows_folded,
{
    (encode_state(&conn.state), conn.rows_folded)
}

/// Whether the stored digest is that of the rows.
pub fn assert_trigger_parity(conn: &DigestStore) -> (r: bool)
    requires
        conn.files.len() <= i64::MAX,
    ensures
        r == conn@.has_parity(),
{
    let stored = digest_stored(conn);
    let scanned = digest_scan(conn);
    proof {
        encoding_is_injective(conn@.state, scan_state(conn@.files));
    }
    stored.0 == scanned.0 && stored.1 == scanned.1
}

/// A state as it is shown.
pub open spec fn rendered(state: Lanes) -> Seq<char> {
    "ms1-"@ + encoded(state)
}

fn render(state: &Lanes) -> (r: String)
    ensures
        r@ == rendered(*state),
{
    let mut r = "ms1-".to_owned();
    r.append(encode_state(state).as_str());
    r
}

/// The revision of the content: the stored digest, whatever the rows are.
pub fn content_revision(conn: &DigestStore) -> (r: String)
    ensures
        r@ == rendered(conn@.state),
{
    render(&conn.state)
}

/// The revision of the content computed from the rows.
pub fn content_revision_from_scan(conn: &DigestStore) -> (r: String)
    requires
        conn.files.len() <= i64::MAX,
    ensures
        r@ == rendered(scan_state(conn@.files)),
{
    let (state, _) = scan(conn);
    render(&state)
}

/// Sets the stored state to that of the rows, where it has drifted.
pub fn verify_content_digest_parity(conn: &mut DigestStore)
    requires
        old(conn).files.len() <= i64::MAX,
    ensures
        final(conn)@ == (DigestModel {
            state: scan_state(old(conn)@.files),
            rows_folded: members(old(conn)@.files) as i64,
            ..old(conn)@
        }),
        final(conn)@.has_parity(),
{
    let (state, count) = scan(conn);
    conn.state = state;
    conn.rows_folded = count;
}

/// One row of the legacy digest's text.
pub open spec fn legacy_entry(f: FileModel) -> Seq<char> {
    f.path + ":"@ + f.sha256
}

/// The entries of some rows with commas between them.
pub open spec fn legacy_join(rows: Seq<FileModel>) -> Seq<char>
    decreases rows.len(),
{
    if rows.len() == 0 {
        Seq::empty()
    } else if rows.len() == 1 {
        legacy_entry(rows[0])
    } else {
        legacy_join(rows.drop_last()) + ","@ + legacy_entry(rows.last())
    }
}

/// The rows that count, by path.
pub open spec fn members_by_path(rows: Seq<FileModel>) -> Seq<FileModel> {
    order::ranked(
        rows.filter(|f: FileModel| is_member(f)),
        |x: FileModel, y: FileModel| text::before(x.path, y.path),
    )
}

/// The digest that stamps were written with before rows were folded: the
/// SHA-256 of all entries in path order.
pub open spec fn legacy_digest(rows: Seq<FileModel>) -> Seq<char> {
    hash::text_sha256(legacy_join(members_by_path(rows)))
}

fn copy_members_by_path(rows: &Vec<FileRow>) -> (r: Vec<FileRow>)
    ensures
        files::file_models(r@) == members_by_path(files::file_models(rows@)),
{
    let ghost all = files::file_models(rows@);
    let ghost counts = |f: FileModel| is_member(f);
    let ghost earlier = |x: FileModel, y: FileModel| text::before(x.path, y.path);
    let mut r: Vec<FileRow> = Vec::new();
    let mut i: usize = 0;
    proof {
        reveal(Seq::filter);
        assert(files::file_models(r@) =~= Seq::empty());
    }
    while i < rows.len()
        invariant
            i <= rows.len(),
            all == files::file_models(rows@),
            counts == (|f: FileModel| is_member(f)),
            earlier == (|x: FileModel, y: FileModel| text::before(x.path, y.path)),
            files::file_models(r@) == order::ranked(all.take(i as int).filter(counts), earlier),
        decreases rows.len() - i,
    {
        let row = &rows[i];
        let ghost sofar = all.take(i as int).filter(counts);
        proof {
            assert(all.take(i + 1).drop_last() =~= all.take(i as int));
            assert(all.take(i + 1).last() == row@);
            reveal(Seq::filter);
        }
        if is_member_row(row) {
            let ghost old_r = files::file_models(r@);
            let mut k: usize = 0;
            while k < r.len() && !comes_before(row.path.as_str(), r[k].path.as_str())
                invariant
                    k <= r.len(),
                    earlier == (|x: FileModel, y: FileModel| text::before(x.path, y.path)),
                    old_r == files::file_models(r@),
                    forall|j: int| 0 <= j < k ==> !earlier(row@, #[trigger] old_r[j]),
                decreases r.len() - k,
            {
                assert(old_r[k as int] == r@[k as int]@);
                k += 1;
            }
            proof {
                if k < r.len() {
                    assert(old_r[k as int] == r@[k as int]@);
                }
                order::placed_at(old_r, row@, earlier, k as int);
                assert(sofar.push(row@).drop_last() =~= sofar);
            }
            r.insert(k, row.copy());
            assert(files::file_models(r@) =~= old_r.insert(k as int, row@));
        }
        i += 1;
    }
    assert(all.take(i as int) =~= all);
    r
}

/// The digest that stamps were written with before rows were folded.
pub fn legacy_content_digest(conn: &DigestStore) -> (r: String)
    ensures
        r@ == legacy_digest(conn@.files),
{
    let rows = copy_members_by_path(&conn.files);
    let ghost all = files::file_models(rows@);
    let mut joined = String::new();
    let mut i: usize = 0;
    assert(joined@ =~= Seq::empty());
    while i < rows.len()
        invariant
            i <= rows.len(),
            all == files::file_models(rows@),
            joined@ == legacy_join(all.take(i as int)),
        decreases rows.len() - i,
    {
        let ghost sofar = joined@;
        if i > 0 {
            joined.append(",");
        }
        joined.append(rows[i].path.as_str());
        joined.append(":");
        joined.append(rows[i].sha256.as_str());
        proof {
            assert(all.take(i + 1).drop_last() =~= all.take(i as int));
            assert(all.take(i + 1).last() == rows@[i as int]@);
            if i == 0 {
                assert(all.take(1)[0] == rows@[0]@);
                assert(joined@ =~= legacy_entry(rows@[0]@));
            } else {
                assert(joined@ =~= sofar + ","@ + legacy_entry(rows@[i as int]@));
            }
        }
        i += 1;
    }
    assert(all.take(i as int) =~= all);
    hex_sha256(joined.as_bytes_vec().as_slice())
}

/// The stamp, moved from the old digest to the new one where it was the old one.
pub open spec fn restamp(stamp: Seq<char>, old_digest: Seq<char>, new_digest: Seq<char>) -> Seq<
    char,
> {
    if stamp == old_digest {
        new_digest
    } else {
        stamp
    }
}

/// The settings of the index with the two content stamps moved.
pub open spec fn restamped_index_meta(
    rows: Seq<(Seq<char>, Seq<char>)>,
    old_digest: Seq<char>,
    new_digest: Seq<char>,
) -> Seq<(Seq<char>, Seq<char>)> {
    rows.map_values(
        |m: (Seq<char>, Seq<char>)|
            if m.0 == "fts_source_revision"@ || m.0 == "content_revision"@ {
                (m.0, restamp(m.1, old_digest, new_digest))
            } else {
                m
            },
    )
}

/// The clone generations with their stamps moved.
pub open spec fn restamped_generations(
    rows: Seq<(u64, Seq<char>)>,
    old_digest: Seq<char>,
    new_digest: Seq<char>,
) -> Seq<(u64, Seq<char>)> {
    rows.map_values(|g: (u64, Seq<char>)| (g.0, restamp(g.1, old_digest, new_digest)))
}

/// The settings of the repositories with the quiet candidates' stamps moved.
pub open spec fn restamped_repo_meta(
    rows: Seq<MetaModel>,
    old_digest: Seq<char>,
    new_digest: Seq<char>,
) -> Seq<MetaModel> {
    rows.map_values(
        |m: MetaModel|
            if m.key == "clone_graph_quiet_candidate_revision"@ {
                MetaModel { value: restamp(m.value, old_digest, new_digest), ..m }
            } else {
                m
            },
    )
}

/// Starts to keep the digest by folding: makes the table of its state where it is
/// missing, puts the triggers in place, computes the state from the rows, and moves every stamp that was written with the
/// legacy digest of these rows to the new one. A stamp that was already stale
/// stays as it is.
pub fn apply_content_digest_state(conn: &mut DigestStore)
    requires
        old(conn).files.len() <= i64::MAX,
    ensures
        ({
            let rows = old(conn)@.files;
            let legacy = legacy_digest(rows);
            let fresh = rendered(scan_state(rows));
            final(conn)@ == (DigestModel {
                files: rows,
                state: scan_state(rows),
                rows_folded: members(rows) as i64,
                objects: schema::with_fold_triggers(
                    schema::with_object(
                        old(conn)@.objects,
                        schema::table("content_digest_state"@),
                    ),
                ),
                fold_registered: old(conn)@.fold_registered,
                index_meta: restamped_index_meta(old(conn)@.index_meta, legacy, fresh),
                generations: restamped_generations(old(conn)@.generations, legacy, fresh),
                repo_meta: restamped_repo_meta(old(conn)@.repo_meta, legacy, fresh),
            })
        }),
        final(conn)@.has_parity(),
        final(conn)@.triggers_live(),
{
    add_object(conn, "table", "content_digest_state", "content_digest_state");
    ensure_content_digest(conn);
    verify_content_digest_parity(conn);
    let legacy = legacy_content_digest(conn);
    let fresh = content_revision(conn);
    let ghost base = conn@;
    let mut i: usize = 0;
    while i < conn.index_meta.len()
        invariant
            i <= conn.index_meta.len(),
            conn.index_meta.len() == base.index_meta.len(),
            conn@ == (DigestModel { index_meta: conn@.index_meta, ..base }),
            forall|j: int|
                0 <= j < i ==> #[trigger] conn@.index_meta[j] == restamped_index_meta(
                    base.index_meta,
                    legacy@,
                    fresh@,
                )[j],
            forall|j: int|
                i <= j < base.index_meta.len() ==> #[trigger] conn@.index_meta[j]
                    == base.index_meta[j],
        decreases conn.index_meta.len() - i,
    {
        let ghost now = conn@;
        assert(now.index_meta[i as int] == (
            conn.index_meta@[i as int].key@,
            conn.index_meta@[i as int].value@,
        ));
        let key = conn.index_meta[i].key.clone();
        if (same_text(key.as_str(), "fts_source_revision") || same_text(
            key.as_str(),
            "content_revision",
        )) && conn.index_meta[i].value == legacy {
            conn.index_meta.set(i, IndexMeta { key, value: fresh.clone() });
            assert(conn@.index_meta =~= now.index_meta.update(
                i as int,
                (now.index_meta[i as int].0, fresh@),
            ));
        }
        i += 1;
    }
    assert(conn@.index_meta =~= restamped_index_meta(base.index_meta, legacy@, fresh@));
    let ghost base2 = conn@;
    let mut g: usize = 0;
    while g < conn.generations.len()
        invariant
            g <= conn.generations.len(),
            conn.generations.len() == base2.generations.len(),
            conn@ == (DigestModel { generations: conn@.generations, ..base2 }),
            forall|j: int|
                0 <= j < g ==> #[trigger] conn@.generations[j] == restamped_generations(
                    base2.generations,
                    legacy@,
                    fresh@,
                )[j],
            forall|j: int|
                g <= j < base2.generations.len() ==> #[trigger] conn@.generations[j]
                    == base2.generations[j],
        decreases conn.generations.len() - g,
    {
        let ghost now = conn@;
        assert(now.generations[g as int] == (
            conn.generations@[g as int].generation,
            conn.generations@[g as int].source_revision@,
        ));
        if conn.generations[g].source_revision == legacy {
            let generation: u64 = conn.generations[g].generation;
            conn.generations.set(
                g,
                CloneGeneration { generation, source_revision: fresh.clone() },
            );
            assert(conn@.generations =~= now.generations.update(g as int, (generation, fresh@)));
        }
        g += 1;
    }
    assert(conn@.generations =~= restamped_generations(base2.generations, legacy@, fresh@));
    let ghost base3 = conn@;
    let mut m: usize = 0;
    while m < conn.repo_meta.len()
        invariant
            m <= conn.repo_meta.len(),
            conn.repo_meta.len() == base3.repo_meta.len(),
            conn@ == (DigestModel { repo_meta: conn@.repo_meta, ..base3 }),
            forall|j: int|
                0 <= j < m ==> #[trigger] conn@.repo_meta[j] == restamped_repo_meta(
                    base3.repo_meta,
                    legacy@,
                    fresh@,
                )[j],
            forall|j: int|
                m <= j < base3.repo_meta.len() ==> #[trigger] conn@.repo_meta[j]
                    == base3.repo_meta[j],
        decreases conn.repo_meta.len() - m,
    {
        let ghost now = conn@;
        assert(now.repo_meta[m as int] == conn.repo_meta@[m as int]@);
        if same_text(
            conn.repo_meta[m].key.as_str(),
            "clone_graph_quiet_candidate_revision",
        ) && conn.repo_meta[m].value == legacy {
            let row = MetaRow {
                repo_id: conn.repo_meta[m].repo_id.clone(),
                key: conn.repo_meta[m].key.clone(),
                value: fresh.clone(),
            };
            conn.repo_meta.set(m, row);
            assert(conn@.repo_meta =~= now.repo_meta.update(m as int, row@));
        }
        m += 1;
    }
    assert(conn@.repo_meta =~= restamped_repo_meta(base3.repo_meta, legacy@, fresh@));
}

/// A second copy of a row counts again: it is added once more to every lane, so
/// it does not cancel the first.
pub proof fn duplicates_do_not_cancel(rows: Seq<FileModel>, f: FileModel, k: int)
    requires
        is_member(f),
    ensures
        members(rows.push(f).push(f)) == members(rows) + 2,
        total(rows.push(f).push(f), k) == total(rows, k) + 2 * row_lanes(f.path, f.sha256).lane(k),
{
    let one = rows.push(f);
    assert(one.drop_last() =~= rows);
    assert(members(one) == members(rows) + 1);
    assert(total(one, k) == total(rows, k) + share(f, k));
    assert(one.push(f).drop_last() =~= one);
}

} // verus!
