//! The allocation table: which worktree holds which port block.
//!
//! The table maps the name of a worktree to its allocation. It is kept as a vector
//! ordered by name, so that listing it is deterministic.

use vstd::prelude::*;
use vstd::utf8::encode_utf8;

verus! {

/// The version of the table's layout that this library writes.
pub const CURRENT_VER: i32 = 1;

/// The largest block that is ever handed out.
pub const MAX_BLOCK: i32 = 9999;

/// The number of ports in a block.
pub const BLOCK_SIZE: i32 = 100;

/// What can go wrong with the table.
#[derive(Clone, Copy, Debug, PartialEq, Eq, Structural)]
pub enum StateError {
    /// No allocation has the name.
    NotFound,
    /// The time of creation cannot be written as a calendar date.
    InvalidTime,
    /// An allocation has the name already.
    AlreadyExists,
    /// Every block from 1 to `MAX_BLOCK` is taken.
    NoFreeBlocks,
    /// The name has no normal form: nothing of it is left after normalising.
    InvalidName,
}

/// The record of one worktree.
#[derive(Debug)]
pub struct Allocation {
    /// The normal form of the worktree's name: the key of the record.
    pub name: String,
    /// The branch that the worktree is on.
    pub branch: String,
    /// Where the worktree lies.
    pub path: String,
    /// The port block of the worktree.
    pub block: i32,
    /// The first port of the block, counted from the default ports.
    pub offset: i32,
    /// When the record was made.
    pub created_at: String,
}

/// An allocation as a value.
pub struct AllocationView {
    pub name: Seq<char>,
    pub branch: Seq<char>,
    pub path: Seq<char>,
    pub block: int,
    pub offset: int,
    pub created_at: Seq<char>,
}

impl View for Allocation {
    type V = AllocationView;

    open spec fn view(&self) -> AllocationView {
        AllocationView {
            name: self.name@,
            branch: self.branch@,
            path: self.path@,
            block: self.block as int,
            offset: self.offset as int,
            created_at: self.created_at@,
        }
    }
}

impl Clone for Allocation {
    fn clone(&self) -> (r: Self)
        ensures
            r@ == self@,
    {
        Allocation {
            name: self.name.clone(),
            branch: self.branch.clone(),
            path: self.path.clone(),
            block: self.block,
            offset: self.offset,
            created_at: self.created_at.clone(),
        }
    }
}

/// Whether `k` is where `a` first falls short of `b`: they agree before `k`, and at `k`
/// either `a` ends and `b` goes on, or `a` has the smaller byte.
pub open spec fn splits_before(a: Seq<u8>, b: Seq<u8>, k: int) -> bool {
    &&& 0 <= k <= a.len()
    &&& k < b.len()
    &&& forall|i: int| 0 <= i < k ==> a[i] == b[i]
    &&& k == a.len() || a[k] < b[k]
}

/// Whether `a` comes before `b` in the order of the dictionary, byte by byte.
pub open spec fn bytes_before(a: Seq<u8>, b: Seq<u8>) -> bool {
    exists|k: int| splits_before(a, b, k)
}

/// Whether the name `a` comes before the name `b`: the order of their UTF-8 bytes.
pub open spec fn name_before(a: Seq<char>, b: Seq<char>) -> bool {
    bytes_before(encode_utf8(a), encode_utf8(b))
}

/// No sequence of bytes comes before itself.
pub proof fn lemma_bytes_before_irreflexive(a: Seq<u8>)
    ensures
        !bytes_before(a, a),
{
}

/// The order of byte sequences is transitive.
pub proof fn lemma_bytes_before_transitive(a: Seq<u8>, b: Seq<u8>, c: Seq<u8>)
    requires
        bytes_before(a, b),
        bytes_before(b, c),
    ensures
        bytes_before(a, c),
{
    let k1 = choose|k: int| splits_before(a, b, k);
    let k2 = choose|k: int| splits_before(b, c, k);
    if k1 <= k2 {
        assert(splits_before(a, c, k1));
    } else {
        assert(splits_before(a, c, k2));
    }
}

/// How two names stand to each other.
#[derive(Clone, Copy, Debug, PartialEq, Eq, Structural)]
pub enum NameOrder {
    Before,
    Same,
    After,
}

/// Compares two names.
pub fn compare_names(a: &str, b: &str) -> (r: NameOrder)
    ensures
        r == NameOrder::Before <==> name_before(a@, b@),
        r == NameOrder::Same <==> a@ == b@,
        r == NameOrder::After <==> name_before(b@, a@),
{
    broadcast use vstd::utf8::encode_utf8_decode_utf8;

    let x = a.as_bytes();
    let y = b.as_bytes();
    let mut k: usize = 0;
    while k < x.len() && k < y.len() && x[k] == y[k]
        invariant
            k <= x.len(),
            k <= y.len(),
            forall|i: int| 0 <= i < k ==> x@[i] == y@[i],
        decreases x.len() - k,
    {
        k += 1;
    }
    proof {
        lemma_bytes_before_irreflexive(x@);
        if a@ == b@ {
            assert(x@ == y@);
        }
    }
    if k == x.len() && k == y.len() {
        assert(x@ =~= y@);
        assert(vstd::utf8::decode_utf8(encode_utf8(a@)) == a@);
        assert(vstd::utf8::decode_utf8(encode_utf8(b@)) == b@);
        assert(!bytes_before(y@, x@));
        NameOrder::Same
    } else if k == x.len() || (k < y.len() && x[k] < y[k]) {
        assert(splits_before(x@, y@, k as int));
        proof {
            if bytes_before(y@, x@) {
                lemma_bytes_before_transitive(x@, y@, x@);
            }
        }
        NameOrder::Before
    } else {
        assert(splits_before(y@, x@, k as int));
        proof {
            if bytes_before(x@, y@) {
                lemma_bytes_before_transitive(x@, y@, x@);
            }
        }
        NameOrder::After
    }
}

/// Whether the allocations stand in the strict order of their names.
pub open spec fn sorted_by_name(s: Seq<AllocationView>) -> bool {
    forall|i: int, j: int| 0 <= i < j < s.len() ==> name_before(#[trigger] s[i].name, #[trigger] s[j].name)
}

/// Whether one of the allocations has the name `n`.
pub open spec fn has_name(s: Seq<AllocationView>, n: Seq<char>) -> bool {
    exists|i: int| 0 <= i < s.len() && (#[trigger] s[i]).name == n
}

/// Whether one of the allocations holds the block `b`.
pub open spec fn block_used(s: Seq<AllocationView>, b: int) -> bool {
    exists|i: int| 0 <= i < s.len() && (#[trigger] s[i]).block == b
}

/// The allocations as a map from their names. Where a name occurs twice the later
/// allocation counts; in an ordered table none does.
pub open spec fn table_of(s: Seq<AllocationView>) -> Map<Seq<char>, AllocationView>
    decreases s.len(),
{
    if s.len() == 0 {
        Map::empty()
    } else {
        table_of(s.drop_last()).insert(s.last().name, s.last())
    }
}

/// What holds of the blocks of every table that this library makes: each block is at
/// least 1, each offset is its block times the block size, and no two allocations
/// share a block.
pub open spec fn blocks_valid(s: Seq<AllocationView>) -> bool {
    &&& forall|i: int|
        0 <= i < s.len() ==> (#[trigger] s[i]).block >= 1 && s[i].offset == s[i].block * BLOCK_SIZE
    &&& forall|i: int, j: int|
        0 <= i < j < s.len() ==> (#[trigger] s[i]).block != (#[trigger] s[j]).block
}

/// In an ordered table no name occurs twice.
pub proof fn lemma_sorted_distinct(s: Seq<AllocationView>)
    requires
        sorted_by_name(s),
    ensures
        forall|i: int, j: int|
            0 <= i < s.len() && 0 <= j < s.len() && i != j ==> (#[trigger] s[i]).name != (
            #[trigger] s[j]).name,
{
    assert forall|i: int, j: int| 0 <= i < s.len() && 0 <= j < s.len() && i != j implies (
    #[trigger] s[i]).name != (#[trigger] s[j]).name by {
        lemma_bytes_before_irreflexive(encode_utf8(s[i].name));
        if i < j {
            assert(name_before(s[i].name, s[j].name));
        } else {
            assert(name_before(s[j].name, s[i].name));
        }
    }
}

/// The map of an ordered table holds just the names of its allocations, each with its
/// allocation.
pub proof fn lemma_table_of(s: Seq<AllocationView>)
    requires
        sorted_by_name(s),
    ensures
        forall|n: Seq<char>| #[trigger] table_of(s).dom().contains(n) <==> has_name(s, n),
        forall|i: int| 0 <= i < s.len() ==> table_of(s)[(#[trigger] s[i]).name] == s[i],
        table_of(s).dom().finite(),
        table_of(s).len() == s.len(),
    decreases s.len(),
{
    if s.len() > 0 {
        let t = s.drop_last();
        assert(sorted_by_name(t)) by {
            assert forall|i: int, j: int| 0 <= i < j < t.len() implies name_before(
                #[trigger] t[i].name,
                #[trigger] t[j].name,
            ) by {
                assert(t[i] == s[i] && t[j] == s[j]);
            }
        }
        lemma_table_of(t);
        lemma_sorted_distinct(s);
        assert forall|n: Seq<char>| #[trigger] table_of(s).dom().contains(n) <==> has_name(
            s,
            n,
        ) by {
            if has_name(s, n) {
                let i = choose|i: int| 0 <= i < s.len() && (#[trigger] s[i]).name == n;
                if i < t.len() {
                    assert(t[i].name == n);
                    assert(has_name(t, n));
                }
            }
            if table_of(s).dom().contains(n) {
                if n == s.last().name {
                    assert(s[s.len() - 1].name == n);
                } else {
                    assert(has_name(t, n));
                    let i = choose|i: int| 0 <= i < t.len() && (#[trigger] t[i]).name == n;
                    assert(s[i].name == n);
                }
            }
        }
        assert forall|i: int| 0 <= i < s.len() implies table_of(s)[(#[trigger] s[i]).name]
            == s[i] by {
            if i < t.len() {
                assert(t[i] == s[i]);
                assert(s[i].name != s[s.len() - 1].name);
            }
        }
        assert(!table_of(t).dom().contains(s.last().name)) by {
            if has_name(t, s.last().name) {
                let i = choose|i: int| 0 <= i < t.len() && (#[trigger] t[i]).name == s.last().name;
                assert(s[i].name == s[s.len() - 1].name);
            }
        }
    }
}

/// Putting an allocation where its name belongs keeps the table ordered and adds it to
/// the map.
pub proof fn lemma_insert_at(s: Seq<AllocationView>, k: int, a: AllocationView)
    requires
        sorted_by_name(s),
        0 <= k <= s.len(),
        forall|i: int| 0 <= i < k ==> name_before((#[trigger] s[i]).name, a.name),
        forall|i: int| k <= i < s.len() ==> name_before(a.name, (#[trigger] s[i]).name),
    ensures
        sorted_by_name(s.insert(k, a)),
        !has_name(s, a.name),
        table_of(s.insert(k, a)) == table_of(s).insert(a.name, a),
{
    let t = s.insert(k, a);
    assert forall|i: int, j: int| 0 <= i < j < t.len() implies name_before(
        #[trigger] t[i].name,
        #[trigger] t[j].name,
    ) by {
        if i < k && j > k {
            assert(name_before(s[i].name, s[j - 1].name));
        } else if i < k && j < k {
            assert(name_before(s[i].name, s[j].name));
        } else if i > k {
            assert(name_before(s[i - 1].name, s[j - 1].name));
        }
    }
    if has_name(s, a.name) {
        let i = choose|i: int| 0 <= i < s.len() && (#[trigger] s[i]).name == a.name;
        lemma_bytes_before_irreflexive(encode_utf8(a.name));
    }
    lemma_table_of(s);
    lemma_table_of(t);
    let m1 = table_of(t);
    let m2 = table_of(s).insert(a.name, a);
    assert forall|n: Seq<char>| m1.dom().contains(n) <==> m2.dom().contains(n) by {
        if has_name(t, n) {
            let i = choose|i: int| 0 <= i < t.len() && (#[trigger] t[i]).name == n;
            if i < k {
                assert(s[i].name == n);
            } else if i > k {
                assert(s[i - 1].name == n);
            }
        }
        if has_name(s, n) {
            let i = choose|i: int| 0 <= i < s.len() && (#[trigger] s[i]).name == n;
            if i < k {
                assert(t[i].name == n);
            } else {
                assert(t[i + 1].name == n);
            }
        }
        if n == a.name {
            assert(t[k].name == n);
        }
    }
    assert forall|n: Seq<char>| m1.dom().contains(n) implies m1[n] == m2[n] by {
        let i = choose|i: int| 0 <= i < t.len() && (#[trigger] t[i]).name == n;
        assert(m1[t[i].name] == t[i]);
        if i < k {
            assert(m2[s[i].name] == s[i]);
        } else if i > k {
            assert(m2[s[i - 1].name] == s[i - 1]);
        }
    }
    assert(m1 =~= m2);
}

/// Replacing an allocation by one of the same name keeps the table ordered and
/// replaces it in the map.
pub proof fn lemma_replace_at(s: Seq<AllocationView>, k: int, a: AllocationView)
    requires
        sorted_by_name(s),
        0 <= k < s.len(),
        s[k].name == a.name,
    ensures
        sorted_by_name(s.update(k, a)),
        table_of(s.update(k, a)) == table_of(s).insert(a.name, a),
{
    let t = s.update(k, a);
    assert forall|i: int, j: int| 0 <= i < j < t.len() implies name_before(
        #[trigger] t[i].name,
        #[trigger] t[j].name,
    ) by {
        assert(name_before(s[i].name, s[j].name));
    }
    lemma_table_of(s);
    lemma_table_of(t);
    let m1 = table_of(t);
    let m2 = table_of(s).insert(a.name, a);
    assert forall|n: Seq<char>| m1.dom().contains(n) <==> m2.dom().contains(n) by {
        if has_name(t, n) {
            let i = choose|i: int| 0 <= i < t.len() && (#[trigger] t[i]).name == n;
            assert(s[i].name == n);
        }
        if has_name(s, n) {
            let i = choose|i: int| 0 <= i < s.len() && (#[trigger] s[i]).name == n;
            assert(t[i].name == n);
        }
        if n == a.name {
            assert(t[k].name == n);
        }
    }
    assert forall|n: Seq<char>| m1.dom().contains(n) implies m1[n] == m2[n] by {
        let i = choose|i: int| 0 <= i < t.len() && (#[trigger] t[i]).name == n;
        assert(m1[t[i].name] == t[i]);
        if i != k {
            assert(m2[s[i].name] == s[i]);
            lemma_sorted_distinct(s);
        }
    }
    assert(m1 =~= m2);
}

/// Taking an allocation out keeps the table ordered and takes its name out of the map.
pub proof fn lemma_remove_at(s: Seq<AllocationView>, k: int)
    requires
        sorted_by_name(s),
        0 <= k < s.len(),
    ensures
        sorted_by_name(s.remove(k)),
        table_of(s.remove(k)) == table_of(s).remove(s[k].name),
{
    let t = s.remove(k);
    assert forall|i: int, j: int| 0 <= i < j < t.len() implies name_before(
        #[trigger] t[i].name,
        #[trigger] t[j].name,
    ) by {
        let i0 = if i < k { i } else { i + 1 };
        let j0 = if j < k { j } else { j + 1 };
        assert(name_before(s[i0].name, s[j0].name));
    }
    lemma_table_of(s);
    lemma_table_of(t);
    lemma_sorted_distinct(s);
    let m1 = table_of(t);
    let m2 = table_of(s).remove(s[k].name);
    assert forall|n: Seq<char>| m1.dom().contains(n) <==> m2.dom().contains(n) by {
        if has_name(t, n) {
            let i = choose|i: int| 0 <= i < t.len() && (#[trigger] t[i]).name == n;
            let i0 = if i < k { i } else { i + 1 };
            assert(s[i0].name == n);
        }
        if has_name(s, n) && n != s[k].name {
            let i = choose|i: int| 0 <= i < s.len() && (#[trigger] s[i]).name == n;
            let i0 = if i < k { i } else { i - 1 };
            assert(t[i0].name == n);
        }
    }
    assert forall|n: Seq<char>| m1.dom().contains(n) implies m1[n] == m2[n] by {
        let i = choose|i: int| 0 <= i < t.len() && (#[trigger] t[i]).name == n;
        let i0 = if i < k { i } else { i + 1 };
        assert(m1[t[i].name] == t[i]);
        assert(table_of(s)[s[i0].name] == s[i0]);
    }
    assert(m1 =~= m2);
}

/// An ordered table is fixed by its map: two ordered tables with the same map hold the
/// same allocations in the same order.
pub proof fn lemma_table_fixes_order(s: Seq<AllocationView>, t: Seq<AllocationView>)
    requires
        sorted_by_name(s),
        sorted_by_name(t),
        table_of(s) == table_of(t),
    ensures
        s == t,
    decreases s.len(),
{
    lemma_table_of(s);
    lemma_table_of(t);
    if s.len() == 0 {
        assert(s =~= t);
    } else {
        let n = s.len() - 1;
        let a = s[n];
        let b = t[n];
        assert(has_name(t, a.name)) by {
            assert(table_of(s).dom().contains(s[n].name));
        }
        assert(has_name(s, b.name)) by {
            assert(table_of(t).dom().contains(t[n].name));
        }
        let j = choose|j: int| 0 <= j < t.len() && (#[trigger] t[j]).name == a.name;
        let i = choose|i: int| 0 <= i < s.len() && (#[trigger] s[i]).name == b.name;
        if j < n {
            assert(name_before(t[j].name, t[n].name));
            if i < n {
                assert(name_before(s[i].name, s[n].name));
                lemma_bytes_before_transitive(
                    encode_utf8(a.name),
                    encode_utf8(b.name),
                    encode_utf8(a.name),
                );
            }
            lemma_bytes_before_irreflexive(encode_utf8(a.name));
        }
        assert(table_of(s)[s[n].name] == s[n]);
        assert(table_of(t)[t[n].name] == t[n]);
        assert(a == b);
        lemma_remove_at(s, n);
        lemma_remove_at(t, n);
        assert(s.remove(n) =~= s.drop_last());
        assert(t.remove(n) =~= t.drop_last());
        lemma_table_fixes_order(s.drop_last(), t.drop_last());
        assert(s =~= s.drop_last().push(a));
        assert(t =~= t.drop_last().push(b));
    }
}

/// What valid blocks mean for the map of an ordered table: every allocation has a block
/// of at least 1 and the offset that belongs to it, and no two names share a block.
pub proof fn lemma_valid_table(s: Seq<AllocationView>)
    requires
        sorted_by_name(s),
        blocks_valid(s),
    ensures
        forall|n: Seq<char>| #[trigger]
            table_of(s).dom().contains(n) ==> table_of(s)[n].block >= 1 && table_of(s)[n].offset
                == table_of(s)[n].block * BLOCK_SIZE,
        forall|n: Seq<char>, m: Seq<char>|
            #[trigger] table_of(s).dom().contains(n) && #[trigger] table_of(s).dom().contains(m)
                && n != m ==> table_of(s)[n].block != table_of(s)[m].block,
        forall|b: int|
            block_used(s, b) <==> exists|n: Seq<char>| #[trigger]
                table_of(s).dom().contains(n) && table_of(s)[n].block == b,
{
    lemma_table_of(s);
    assert forall|n: Seq<char>| #[trigger] table_of(s).dom().contains(n) implies table_of(
        s,
    )[n].block >= 1 && table_of(s)[n].offset == table_of(s)[n].block * BLOCK_SIZE by {
        let i = choose|i: int| 0 <= i < s.len() && (#[trigger] s[i]).name == n;
        assert(table_of(s)[s[i].name] == s[i]);
    }
    assert forall|n: Seq<char>, m: Seq<char>|
        #[trigger] table_of(s).dom().contains(n) && #[trigger] table_of(s).dom().contains(m) && n
            != m implies table_of(s)[n].block != table_of(s)[m].block by {
        let i = choose|i: int| 0 <= i < s.len() && (#[trigger] s[i]).name == n;
        let j = choose|j: int| 0 <= j < s.len() && (#[trigger] s[j]).name == m;
        assert(table_of(s)[s[i].name] == s[i]);
        assert(table_of(s)[s[j].name] == s[j]);
        if i < j {
            assert(s[i].block != s[j].block);
        } else {
            assert(s[j].block != s[i].block);
        }
    }
    assert forall|b: int|
        block_used(s, b) <==> exists|n: Seq<char>| #[trigger]
            table_of(s).dom().contains(n) && table_of(s)[n].block == b by {
        if block_used(s, b) {
            let i = choose|i: int| 0 <= i < s.len() && (#[trigger] s[i]).block == b;
            assert(table_of(s)[s[i].name] == s[i]);
            assert(has_name(s, s[i].name));
            assert(table_of(s).dom().contains(s[i].name));
        }
        if exists|n: Seq<char>| #[trigger]
            table_of(s).dom().contains(n) && table_of(s)[n].block == b {
            let n = choose|n: Seq<char>| #[trigger]
                table_of(s).dom().contains(n) && table_of(s)[n].block == b;
            let i = choose|i: int| 0 <= i < s.len() && (#[trigger] s[i]).name == n;
            assert(table_of(s)[s[i].name] == s[i]);
        }
    }
}

/// The table of allocations, with the version of its layout.
#[derive(Debug)]
pub struct State {
    /// The version of the layout.
    pub version: i32,
    /// The allocations, in the strict order of their names.
    pub allocations: Vec<Allocation>,
}

impl State {
    /// The allocations as values, in the order of the table.
    pub open spec fn allocs(&self) -> Seq<AllocationView> {
        self.allocations@.map_values(|a: Allocation| a@)
    }

    /// Whether the table is well formed: its allocations stand in the strict order of
    /// their names, so that no name occurs twice.
    pub open spec fn wf(&self) -> bool {
        sorted_by_name(self.allocs())
    }

    /// The table as a map from names to allocations.
    pub open spec fn table(&self) -> Map<Seq<char>, AllocationView> {
        table_of(self.allocs())
    }

    /// Whether the blocks of the table are valid: see `blocks_valid`.
    pub open spec fn valid(&self) -> bool {
        blocks_valid(self.allocs())
    }

    /// The empty table in the current layout.
    pub fn new() -> (st: State)
        ensures
            st.version == CURRENT_VER,
            st.allocs() == Seq::<AllocationView>::empty(),
            st.table() == Map::<Seq<char>, AllocationView>::empty(),
            st.wf(),
            st.valid(),
    {
        let st = State { version: CURRENT_VER, allocations: Vec::new() };
        assert(st.allocs() =~= Seq::<AllocationView>::empty());
        st
    }

    /// The empty table for a layout version as it was read. A table without a version,
    /// which reads as 0, is taken to be in the current layout.
    pub fn with_version(version: i32) -> (st: State)
        ensures
            st.version == (if version == 0 { CURRENT_VER } else { version }),
            st.allocs() == Seq::<AllocationView>::empty(),
            st.table() == Map::<Seq<char>, AllocationView>::empty(),
            st.wf(),
            st.valid(),
    {
        let st = State {
            version: if version == 0 { CURRENT_VER } else { version },
            allocations: Vec::new(),
        };
        assert(st.allocs() =~= Seq::<AllocationView>::empty());
        st
    }

    /// The number of allocations.
    pub fn len(&self) -> (n: usize)
        ensures
            n == self.allocs().len(),
    {
        self.allocations.len()
    }

    /// Whether the table holds no allocation.
    pub fn is_empty(&self) -> (r: bool)
        ensures
            r == (self.allocs().len() == 0),
    {
        self.allocations.len() == 0
    }

    /// Where `name` stands in the table, or where it would have to stand, and whether
    /// it stands there.
    fn position(&self, name: &str) -> (r: (usize, bool))
        requires
            self.wf(),
        ensures
            r.0 <= self.allocs().len(),
            forall|i: int| 0 <= i < r.0 ==> name_before((#[trigger] self.allocs()[i]).name, name@),
            r.1 ==> r.0 < self.allocs().len() && self.allocs()[r.0 as int].name == name@,
            !r.1 ==> forall|i: int|
                r.0 <= i < self.allocs().len() ==> name_before(
                    name@,
                    (#[trigger] self.allocs()[i]).name,
                ),
            r.1 == has_name(self.allocs(), name@),
    {
        let mut k: usize = 0;
        let mut found = false;
        let mut stop = false;
        while k < self.allocations.len() && !stop
            invariant
                k <= self.allocations.len(),
                self.allocations.len() == self.allocs().len(),
                forall|i: int| 0 <= i < k ==> name_before((#[trigger] self.allocs()[i]).name, name@),
                !stop ==> !found,
                stop ==> k < self.allocations.len(),
                stop && found ==> self.allocs()[k as int].name == name@,
                stop && !found ==> name_before(name@, self.allocs()[k as int].name),
            decreases self.allocations.len() - k + (if stop { 0int } else { 1int }),
        {
            assert(self.allocs()[k as int] == self.allocations@[k as int]@);
            match compare_names(self.allocations[k].name.as_str(), name) {
                NameOrder::Before => {
                    k += 1;
                },
                NameOrder::Same => {
                    found = true;
                    stop = true;
                },
                NameOrder::After => {
                    stop = true;
                },
            }
        }
        proof {
            let s = self.allocs();
            if !found {
                assert forall|i: int| k <= i < s.len() implies name_before(
                    name@,
                    (#[trigger] s[i]).name,
                ) by {
                    if i > k {
                        assert(name_before(s[k as int].name, s[i].name));
                        lemma_bytes_before_transitive(
                            encode_utf8(name@),
                            encode_utf8(s[k as int].name),
                            encode_utf8(s[i].name),
                        );
                    }
                }
                if has_name(s, name@) {
                    let i = choose|i: int| 0 <= i < s.len() && (#[trigger] s[i]).name == name@;
                    lemma_bytes_before_irreflexive(encode_utf8(name@));
                }
            }
        }
        (k, found)
    }

    /// Whether an allocation has the name.
    pub fn contains_key(&self, name: &str) -> (r: bool)
        requires
            self.wf(),
        ensures
            r == self.table().dom().contains(name@),
    {
        proof {
            lemma_table_of(self.allocs());
        }
        self.position(name).1
    }

    /// The allocation with the name.
    pub fn get(&self, name: &str) -> (r: Option<&Allocation>)
        requires
            self.wf(),
        ensures
            match r {
                Some(a) => self.table().dom().contains(name@) && self.table()[name@] == a@,
                None => !self.table().dom().contains(name@),
            },
    {
        proof {
            lemma_table_of(self.allocs());
        }
        let (k, found) = self.position(name);
        if found {
            assert(self.allocs()[k as int] == self.allocations@[k as int]@);
            Some(&self.allocations[k])
        } else {
            None
        }
    }

    /// Puts an allocation into the table under its name, in place of the one that had
    /// the name, which is returned.
    pub fn insert(&mut self, a: Allocation) -> (prev: Option<Allocation>)
        requires
            old(self).wf(),
        ensures
            final(self).wf(),
            final(self).version == old(self).version,
            final(self).table() == old(self).table().insert(a.name@, a@),
            match prev {
                Some(p) => old(self).table().dom().contains(a.name@) && old(self).table()[a.name@]
                    == p@,
                None => !old(self).table().dom().contains(a.name@),
            },
            old(self).valid() && a.block >= 1 && a.offset == a.block * BLOCK_SIZE && !block_used(
                old(self).allocs(),
                a.block as int,
            ) ==> final(self).valid(),
    {
        proof {
            lemma_table_of(self.allocs());
        }
        let ghost before = self.allocs();
        let ghost av = a@;
        let (k, found) = self.position(a.name.as_str());
        if found {
            let prev = self.allocations.remove(k);
            self.allocations.insert(k, a);
            proof {
                assert(self.allocs() =~= before.update(k as int, av));
                lemma_replace_at(before, k as int, av);
                assert(before[k as int] == prev@);
                if blocks_valid(before) && !block_used(before, av.block) {
                    lemma_put_keeps_blocks(before, before.update(k as int, av), k as int, av);
                }
            }
            Some(prev)
        } else {
            self.allocations.insert(k, a);
            proof {
                assert(self.allocs() =~= before.insert(k as int, av));
                lemma_insert_at(before, k as int, av);
                if blocks_valid(before) && !block_used(before, av.block) {
                    lemma_put_keeps_blocks(before, before.insert(k as int, av), k as int, av);
                }
            }
            None
        }
    }

    /// Takes the allocation with the name out of the table and returns it.
    pub fn remove(&mut self, name: &str) -> (prev: Option<Allocation>)
        requires
            old(self).wf(),
        ensures
            final(self).wf(),
            final(self).version == old(self).version,
            final(self).table() == old(self).table().remove(name@),
            match prev {
                Some(p) => old(self).table().dom().contains(name@) && old(self).table()[name@]
                    == p@,
                None => !old(self).table().dom().contains(name@),
            },
            prev is Some ==> final(self).allocs().len() == old(self).allocs().len() - 1,
            prev is None ==> final(self).allocs() == old(self).allocs(),
            old(self).valid() ==> final(self).valid(),
    {
        proof {
            lemma_table_of(self.allocs());
        }
        let ghost before = self.allocs();
        let (k, found) = self.position(name);
        if found {
            let prev = self.allocations.remove(k);
            proof {
                assert(self.allocs() =~= before.remove(k as int));
                lemma_remove_at(before, k as int);
                assert(before[k as int] == prev@);
                if blocks_valid(before) {
                    lemma_remove_keeps_blocks(before, k as int);
                }
            }
            Some(prev)
        } else {
            assert(self.table() =~= old(self).table().remove(name@));
            None
        }
    }
}

/// Whether `b` is the block to hand out next: the smallest block from 1 on that no
/// allocation holds.
pub open spec fn is_next_block(s: Seq<AllocationView>, b: int) -> bool {
    &&& 1 <= b <= MAX_BLOCK
    &&& !block_used(s, b)
    &&& forall|c: int| 1 <= c < b ==> block_used(s, c)
}

/// Whether every block from 1 to `MAX_BLOCK` is held by an allocation.
pub open spec fn blocks_exhausted(s: Seq<AllocationView>) -> bool {
    forall|c: int| 1 <= c <= MAX_BLOCK ==> block_used(s, c)
}

/// A block is used among the first `i + 1` allocations if it is used among the first
/// `i` or is the block of the next one.
pub proof fn lemma_block_used_next(s: Seq<AllocationView>, i: int, b: int)
    requires
        0 <= i < s.len(),
    ensures
        block_used(s.take(i + 1), b) <==> block_used(s.take(i), b) || s[i].block == b,
{
    let t0 = s.take(i);
    let t1 = s.take(i + 1);
    if block_used(t0, b) {
        let j = choose|j: int| 0 <= j < t0.len() && (#[trigger] t0[j]).block == b;
        assert(t1[j].block == b);
    }
    if s[i].block == b {
        assert(t1[i].block == b);
    }
    if block_used(t1, b) {
        let j = choose|j: int| 0 <= j < t1.len() && (#[trigger] t1[j]).block == b;
        if j < i {
            assert(t0[j].block == b);
        }
    }
}

impl State {
    /// The block for the next allocation: the smallest block from 1 on that is free, so
    /// that a block given back is handed out again before a new one is opened. Block 0
    /// belongs to the main working directory and is never handed out.
    pub fn allocate_block(&self) -> (r: Result<i32, StateError>)
        ensures
            match r {
                Ok(b) => is_next_block(self.allocs(), b as int),
                Err(e) => e == StateError::NoFreeBlocks && blocks_exhausted(self.allocs()),
            },
    {
        let ghost s = self.allocs();
        let mut used: Vec<bool> = Vec::new();
        let mut n: usize = 0;
        while n <= MAX_BLOCK as usize
            invariant
                n <= MAX_BLOCK + 1,
                used.len() == n,
                forall|b: int| 0 <= b < n ==> !(#[trigger] used[b]),
            decreases MAX_BLOCK + 1 - n,
        {
            used.push(false);
            n += 1;
        }
        let mut i: usize = 0;
        while i < self.allocations.len()
            invariant
                i <= self.allocations.len(),
                s == self.allocs(),
                used.len() == MAX_BLOCK + 1,
                forall|b: int| 0 <= b <= MAX_BLOCK ==> (#[trigger] used[b]) == block_used(s.take(i as int), b),
            decreases self.allocations.len() - i,
        {
            let block = self.allocations[i].block;
            assert(s[i as int] == self.allocations@[i as int]@);
            proof {
                assert forall|b: int| 0 <= b <= MAX_BLOCK implies (block_used(s.take(i + 1), b)
                    <==> block_used(s.take(i as int), b) || s[i as int].block == b) by {
                    lemma_block_used_next(s, i as int, b);
                }
            }
            let ghost before = used@;
            if 0 <= block && block <= MAX_BLOCK {
                used.set(block as usize, true);
            }
            assert forall|b: int| 0 <= b <= MAX_BLOCK implies (#[trigger] used[b]) == block_used(
                s.take(i + 1),
                b,
            ) by {
                assert(before[b] == block_used(s.take(i as int), b));
            }
            i += 1;
        }
        assert(s.take(s.len() as int) == s);
        let mut b: i32 = 1;
        while b <= MAX_BLOCK
            invariant
                1 <= b <= MAX_BLOCK + 1,
                s == self.allocs(),
                used.len() == MAX_BLOCK + 1,
                forall|c: int| 0 <= c <= MAX_BLOCK ==> (#[trigger] used[c]) == block_used(s, c),
                forall|c: int| 1 <= c < b ==> block_used(s, c),
            decreases MAX_BLOCK + 1 - b,
        {
            assert(used[b as int] == block_used(s, b as int));
            if !used[b as usize] {
                return Ok(b);
            }
            b += 1;
        }
        Err(StateError::NoFreeBlocks)
    }

    /// The allocations in the order of their names.
    pub fn sorted_allocations(&self) -> (r: Vec<Allocation>)
        ensures
            r@.map_values(|a: Allocation| a@) == self.allocs(),
            self.wf() ==> sorted_by_name(r@.map_values(|a: Allocation| a@)),
    {
        let mut r: Vec<Allocation> = Vec::new();
        let mut i: usize = 0;
        while i < self.allocations.len()
            invariant
                i <= self.allocations.len(),
                r@.map_values(|a: Allocation| a@) == self.allocs().take(i as int),
            decreases self.allocations.len() - i,
        {
            let a = self.allocations[i].clone();
            r.push(a);
            assert(r@.map_values(|a: Allocation| a@) =~= self.allocs().take(i as int).push(
                self.allocs()[i as int],
            ));
            assert(self.allocs().take(i + 1) =~= self.allocs().take(i as int).push(
                self.allocs()[i as int],
            ));
            i += 1;
        }
        assert(self.allocs().take(self.allocs().len() as int) == self.allocs());
        r
    }

    /// Whether the table is well formed.
    pub fn is_well_formed(&self) -> (r: bool)
        ensures
            r == self.wf(),
    {
        let ghost s = self.allocs();
        if self.allocations.len() < 2 {
            return true;
        }
        let mut i: usize = 1;
        assert(sorted_by_name(s.take(1)));
        while i < self.allocations.len()
            invariant
                1 <= i <= self.allocations.len(),
                s == self.allocs(),
                sorted_by_name(s.take(i as int)),
            decreases self.allocations.len() - i,
        {
            assert(s[i - 1] == self.allocations@[i - 1]@);
            assert(s[i as int] == self.allocations@[i as int]@);
            let order = compare_names(
                self.allocations[i - 1].name.as_str(),
                self.allocations[i].name.as_str(),
            );
            if order != NameOrder::Before {
                assert(!name_before(s[i - 1].name, s[i as int].name));
                return false;
            }
            proof {
                let t = s.take(i + 1);
                assert forall|a: int, b: int| 0 <= a < b < t.len() implies name_before(
                    #[trigger] t[a].name,
                    #[trigger] t[b].name,
                ) by {
                    if b < i {
                        assert(name_before(s.take(i as int)[a].name, s.take(i as int)[b].name));
                    } else if a < i - 1 {
                        assert(name_before(s.take(i as int)[a].name, s.take(i as int)[i - 1].name));
                        lemma_bytes_before_transitive(
                            encode_utf8(s[a].name),
                            encode_utf8(s[i - 1].name),
                            encode_utf8(s[i as int].name),
                        );
                    }
                }
            }
            i += 1;
        }
        assert(s.take(s.len() as int) == s);
        true
    }

    /// Whether the blocks of the table are valid.
    pub fn is_valid(&self) -> (r: bool)
        ensures
            r == self.valid(),
    {
        let ghost s = self.allocs();
        let mut i: usize = 0;
        while i < self.allocations.len()
            invariant
                i <= self.allocations.len(),
                s == self.allocs(),
                blocks_valid(s.take(i as int)),
            decreases self.allocations.len() - i,
        {
            let a = &self.allocations[i];
            assert(s[i as int] == self.allocations@[i as int]@);
            if a.block < 1 || a.offset as i64 != a.block as i64 * BLOCK_SIZE as i64 {
                return false;
            }
            let mut j: usize = 0;
            while j < i
                invariant
                    j <= i < self.allocations.len(),
                    s == self.allocs(),
                    s[i as int] == a@,
                    forall|k: int| 0 <= k < j ==> (#[trigger] s[k]).block != a.block,
                decreases i - j,
            {
                assert(s[j as int] == self.allocations@[j as int]@);
                if self.allocations[j].block == a.block {
                    return false;
                }
                j += 1;
            }
            proof {
                let t = s.take(i + 1);
                assert forall|k: int, l: int| 0 <= k < l < t.len() implies (#[trigger] t[k]).block
                    != (#[trigger] t[l]).block by {
                    if l < i {
                        assert(s.take(i as int)[k] == t[k] && s.take(i as int)[l] == t[l]);
                    }
                }
                assert forall|k: int| 0 <= k < t.len() implies (#[trigger] t[k]).block >= 1
                    && t[k].offset == t[k].block * BLOCK_SIZE by {
                    if k < i {
                        assert(s.take(i as int)[k] == t[k]);
                    }
                }
            }
            i += 1;
        }
        assert(s.take(s.len() as int) == s);
        true
    }
}

/// Putting in an allocation with a valid block that no other holds leaves the blocks
/// valid, whether it comes in addition or in place of another.
pub proof fn lemma_put_keeps_blocks(
    s: Seq<AllocationView>,
    t: Seq<AllocationView>,
    k: int,
    a: AllocationView,
)
    requires
        blocks_valid(s),
        !block_used(s, a.block),
        0 <= k <= s.len(),
        t == s.insert(k, a) || (k < s.len() && t == s.update(k, a)),
    ensures
        a.block >= 1 && a.offset == a.block * BLOCK_SIZE ==> blocks_valid(t),
{
    if a.block >= 1 && a.offset == a.block * BLOCK_SIZE {
        let ins = t == s.insert(k, a);
        assert forall|i: int| 0 <= i < t.len() implies (#[trigger] t[i]).block >= 1 && t[i].offset
            == t[i].block * BLOCK_SIZE by {
            if i != k {
                let i0 = if ins && i > k { i - 1 } else { i };
                assert(t[i] == s[i0]);
            }
        }
        assert forall|i: int, j: int| 0 <= i < j < t.len() implies (#[trigger] t[i]).block != (
        #[trigger] t[j]).block by {
            let i0 = if ins && i > k { i - 1 } else { i };
            let j0 = if ins && j > k { j - 1 } else { j };
            if i != k {
                assert(t[i] == s[i0]);
            }
            if j != k {
                assert(t[j] == s[j0]);
            }
        }
    }
}

/// A block that is given back is handed out again before any larger one: once the
/// allocation that holds it is taken out, it is the next block, if every smaller block
/// is held.
pub proof fn lemma_block_reused(s: Seq<AllocationView>, k: int)
    requires
        blocks_valid(s),
        0 <= k < s.len(),
        s[k].block <= MAX_BLOCK,
        forall|c: int| 1 <= c < s[k].block ==> block_used(s, c),
    ensures
        is_next_block(s.remove(k), s[k].block),
{
    let t = s.remove(k);
    let b = s[k].block;
    if block_used(t, b) {
        let i = choose|i: int| 0 <= i < t.len() && (#[trigger] t[i]).block == b;
        let i0 = if i < k { i } else { i + 1 };
        assert(t[i] == s[i0]);
        assert(s[i0].block != s[k].block);
    }
    assert forall|c: int| 1 <= c < b implies block_used(t, c) by {
        assert(block_used(s, c));
        let i = choose|i: int| 0 <= i < s.len() && (#[trigger] s[i]).block == c;
        let i0 = if i < k { i } else { i - 1 };
        assert(t[i0] == s[i]);
    }
}

/// No two blocks are next at once: the next block of a table is one block.
pub proof fn lemma_next_block_unique(s: Seq<AllocationView>, a: int, b: int)
    requires
        is_next_block(s, a),
        is_next_block(s, b),
    ensures
        a == b,
{
}

/// Taking an allocation out leaves the blocks valid.
pub proof fn lemma_remove_keeps_blocks(s: Seq<AllocationView>, k: int)
    requires
        0 <= k < s.len(),
        blocks_valid(s),
    ensures
        blocks_valid(s.remove(k)),
{
    let t = s.remove(k);
    assert forall|i: int| 0 <= i < t.len() implies (#[trigger] t[i]).block >= 1 && t[i].offset
        == t[i].block * BLOCK_SIZE by {
        let i0 = if i < k { i } else { i + 1 };
        assert(t[i] == s[i0]);
    }
    assert forall|i: int, j: int| 0 <= i < j < t.len() implies (#[trigger] t[i]).block != (
    #[trigger] t[j]).block by {
        let i0 = if i < k { i } else { i + 1 };
        let j0 = if j < k { j } else { j + 1 };
        assert(t[i] == s[i0] && t[j] == s[j0]);
    }
}

} // verus!
