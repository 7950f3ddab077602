//! Guards of private members.
//!
//! An object carries the brand of a class if it is an instance of it or of a
//! class below it. Access to `obj.#name` needs the brand of the class that
//! declares the member, and an operation that the kind of member allows.

use std::collections::HashMap;
use vstd::prelude::*;
use vstd::set_lib::lemma_len_subset;

use crate::heap::{object_at, Cells, Heap};
use crate::value::{payload, tagged, JSValue, POINTER_TAG, TAG_FALSE, TAG_TRUE};

verus! {

broadcast use vstd::std_specs::hash::group_hash_axioms;

/// The registered parent of each class.
#[derive(Debug)]
pub struct ClassParents {
    pub parents: HashMap<u32, u32>,
}

impl View for ClassParents {
    type V = Map<u32, u32>;

    open spec fn view(&self) -> Map<u32, u32> {
        self.parents@
    }
}

impl ClassParents {
    pub fn new() -> (r: ClassParents)
        ensures
            r@ == Map::<u32, u32>::empty(),
    {
        ClassParents { parents: HashMap::new() }
    }

    pub fn register(&mut self, class_id: u32, parent: u32)
        ensures
            final(self)@ == old(self)@.insert(class_id, parent),
    {
        self.parents.insert(class_id, parent);
    }
}

/// The class that `class_id` extends. Zero and the class itself are no
/// parents.
pub open spec fn parent_of(parents: Map<u32, u32>, class_id: u32) -> Option<u32> {
    if parents.contains_key(class_id) && parents[class_id] != 0 && parents[class_id] != class_id {
        Some(parents[class_id])
    } else {
        None
    }
}

/// The class `n` steps above `class_id`.
pub open spec fn ancestor(parents: Map<u32, u32>, class_id: u32, n: nat) -> Option<u32>
    decreases n,
{
    if n == 0 {
        Some(class_id)
    } else {
        match ancestor(parents, class_id, (n - 1) as nat) {
            Some(c) => parent_of(parents, c),
            None => None,
        }
    }
}

/// Is `declaring` the class itself or a class above it, however far up?
pub open spec fn class_has_brand(
    parents: Map<u32, u32>,
    class_id: u32,
    declaring: u32,
) -> bool {
    exists|n: nat| #[trigger] ancestor(parents, class_id, n) == Some(declaring)
}

proof fn lemma_chain_ends(parents: Map<u32, u32>, class_id: u32, n: nat, m: nat)
    requires
        ancestor(parents, class_id, n) is None,
        n <= m,
    ensures
        ancestor(parents, class_id, m) is None,
    decreases m,
{
    if n < m {
        lemma_chain_ends(parents, class_id, n, (m - 1) as nat);
    }
}

/// What is above equal classes is equal too.
proof fn lemma_equal_above(parents: Map<u32, u32>, class_id: u32, i: nat, j: nat, k: nat)
    requires
        ancestor(parents, class_id, i) == ancestor(parents, class_id, j),
    ensures
        ancestor(parents, class_id, i + k) == ancestor(parents, class_id, j + k),
    decreases k,
{
    if k > 0 {
        lemma_equal_above(parents, class_id, i, j, (k - 1) as nat);
    }
}

/// A chain with more steps than there are registered classes comes back to a
/// class that it has passed.
proof fn lemma_chain_repeats(parents: Map<u32, u32>, class_id: u32) -> (r: (nat, nat))
    requires
        parents.dom().finite(),
        ancestor(parents, class_id, parents.len() + 1) is Some,
    ensures
        r.0 < r.1 <= parents.len(),
        ancestor(parents, class_id, r.0) == ancestor(parents, class_id, r.1),
{
    let chain = Seq::new(
        parents.len() + 1,
        |i: int| ancestor(parents, class_id, i as nat)->0,
    );
    assert forall|i: int| 0 <= i < chain.len() implies ancestor(
        parents,
        class_id,
        i as nat,
    ) is Some && parents.contains_key(#[trigger] chain[i]) by {
        if ancestor(parents, class_id, (i + 1) as nat) is None {
            lemma_chain_ends(parents, class_id, (i + 1) as nat, parents.len() + 1);
        }
    }
    if chain.no_duplicates() {
        chain.unique_seq_to_set();
        assert(chain.to_set().subset_of(parents.dom()));
        lemma_len_subset(chain.to_set(), parents.dom());
    }
    let (i, j) = choose|i: int, j: int|
        0 <= i < j < chain.len() && #[trigger] chain[i] == #[trigger] chain[j];
    (i as nat, j as nat)
}

/// Every class above another is at most as many steps up as there are
/// registered classes, also where the parents form a cycle.
proof fn lemma_chain_bounded(parents: Map<u32, u32>, class_id: u32, n: nat) -> (m: nat)
    requires
        parents.dom().finite(),
        ancestor(parents, class_id, n) is Some,
    ensures
        m <= parents.len(),
        ancestor(parents, class_id, m) == ancestor(parents, class_id, n),
    decreases n,
{
    if n <= parents.len() {
        n
    } else {
        if ancestor(parents, class_id, parents.len() + 1) is None {
            lemma_chain_ends(parents, class_id, parents.len() + 1, n);
        }
        let (i, j) = lemma_chain_repeats(parents, class_id);
        lemma_equal_above(parents, class_id, i, j, (n - j) as nat);
        lemma_chain_bounded(parents, class_id, (i + n - j) as nat)
    }
}

/// Walks from a class up its parents, in search of `declaring`. After as many
/// steps as there are registered classes every class that can be reached was
/// seen.
fn chain_reaches(parents: &ClassParents, class_id: u32, declaring: u32) -> (r: bool)
    ensures
        r == class_has_brand(parents@, class_id, declaring),
{
    let limit: usize = parents.parents.len();
    let mut cur: u32 = class_id;
    let mut i: usize = 0;
    while cur != declaring && i < limit
        invariant
            i <= limit,
            limit == parents@.len(),
            ancestor(parents@, class_id, i as nat) == Some(cur),
            forall|n: nat|
                n < i ==> #[trigger] ancestor(parents@, class_id, n) != Some(declaring),
        decreases limit - i,
    {
        let next: u32 = match parents.parents.get(&cur) {
            Some(p) => *p,
            None => 0,
        };
        if next == 0 || next == cur {
            proof {
                assert(ancestor(parents@, class_id, (i + 1) as nat) is None);
                assert forall|n: nat| #[trigger]
                    ancestor(parents@, class_id, n) != Some(declaring) by {
                    if n > i {
                        lemma_chain_ends(parents@, class_id, (i + 1) as nat, n);
                    }
                }
            }
            return false;
        }
        cur = next;
        i += 1;
    }
    proof {
        if cur != declaring && class_has_brand(parents@, class_id, declaring) {
            let n = choose|n: nat| #[trigger]
                ancestor(parents@, class_id, n) == Some(declaring);
            let m = lemma_chain_bounded(parents@, class_id, n);
            assert(ancestor(parents@, class_id, m) == Some(declaring));
        }
    }
    cur == declaring
}

/// The class of the object that a value refers to; zero for anything else and
/// for plain objects.
pub open spec fn class_of(cells: Cells, bits: u64) -> u32 {
    match object_at(cells, payload(bits)) {
        Some(o) => if tagged(bits, POINTER_TAG) {
            o.header.class_id
        } else {
            0
        },
        None => 0,
    }
}

/// Does the value refer to an object with the brand of `declaring`?
pub open spec fn has_brand(
    cells: Cells,
    parents: Map<u32, u32>,
    bits: u64,
    declaring: u32,
) -> bool {
    &&& declaring != 0
    &&& class_of(cells, bits) != 0
    &&& class_has_brand(parents, class_of(cells, bits), declaring)
}

pub fn private_object_has_brand(
    heap: &Heap,
    parents: &ClassParents,
    obj: JSValue,
    declaring_class_id: u32,
) -> (r: bool)
    ensures
        r == has_brand(heap@, parents@, obj.bits, declaring_class_id),
{
    if declaring_class_id == 0 || !obj.is_pointer() {
        return false;
    }
    match heap.object(obj.as_pointer()) {
        None => false,
        Some(o) => {
            let class_id = o.header.class_id;
            if class_id == 0 {
                return false;
            }
            chain_reaches(parents, class_id, declaring_class_id)
        },
    }
}

/// Is `#name in obj` true?
pub open spec fn brand_checked(
    cells: Cells,
    parents: Map<u32, u32>,
    bits: u64,
    declaring: u32,
    name: Seq<u8>,
) -> bool {
    name.len() > 0 && has_brand(cells, parents, bits, declaring)
}

/// `#name in obj`: a boxed boolean. False without a declaring class or a name.
pub fn js_private_brand_check(
    heap: &Heap,
    parents: &ClassParents,
    obj: JSValue,
    declaring_class_id: u32,
    field_name: &[u8],
) -> (r: JSValue)
    ensures
        r.bits == (if brand_checked(
            heap@,
            parents@,
            obj.bits,
            declaring_class_id,
            field_name@,
        ) {
            TAG_TRUE
        } else {
            TAG_FALSE
        }),
{
    if declaring_class_id == 0 || field_name.len() == 0 {
        return JSValue::from_bits(TAG_FALSE);
    }
    if private_object_has_brand(heap, parents, obj, declaring_class_id) {
        JSValue::from_bits(TAG_TRUE)
    } else {
        JSValue::from_bits(TAG_FALSE)
    }
}

/// Why an access to a private member is a `TypeError`.
#[derive(Clone, Copy, PartialEq, Eq, Structural, Debug)]
pub enum PrivateAccessError {
    /// The receiver lacks the brand.
    MissingBrand,
    /// The kind of member does not allow the operation.
    WrongKind,
}

impl PrivateAccessError {
    /// The message of the `TypeError`.
    pub fn message(self) -> (r: &'static str)
        ensures
            r@ == (match self {
                PrivateAccessError::MissingBrand => {
                    "Cannot access private member from an object whose class did not declare it"@
                },
                PrivateAccessError::WrongKind => "Invalid private member operation for its kind"@,
            }),
    {
        match self {
            PrivateAccessError::MissingBrand => {
                "Cannot access private member from an object whose class did not declare it"
            },
            PrivateAccessError::WrongKind => "Invalid private member operation for its kind",
        }
    }
}

pub const PRIVATE_FIELD: u32 = 0;

pub const PRIVATE_METHOD: u32 = 1;

pub const PRIVATE_GETTER: u32 = 2;

pub const PRIVATE_SETTER: u32 = 3;

pub const PRIVATE_GETTER_SETTER: u32 = 4;

pub const INSTANCE_READ: u32 = 0;

pub const INSTANCE_WRITE: u32 = 1;

pub const STATIC_READ: u32 = 2;

pub const STATIC_WRITE: u32 = 3;

/// Operations from `STATIC_READ` on are on static members.
pub open spec fn on_static(op: u32) -> bool {
    op >= STATIC_READ
}

/// Writes have the odd numbers.
pub open spec fn is_write(op: u32) -> bool {
    op % 2 == 1
}

/// Operations that fail although the receiver has the brand: reading where
/// there is only a setter, writing where there is only a getter or a method.
pub open spec fn forbidden(kind: u32, op: u32) -> bool {
    ||| !is_write(op) && kind == PRIVATE_SETTER
    ||| is_write(op) && kind == PRIVATE_GETTER
    ||| is_write(op) && kind == PRIVATE_METHOD
}

/// What the guard says of an access. `class_ref` is the class whose constructor
/// the receiver is, if it is one: a static member belongs to that constructor
/// alone and is not inherited. Without a declaring class everything passes, so
/// that no legal access is ever refused.
pub open spec fn private_access(
    cells: Cells,
    parents: Map<u32, u32>,
    bits: u64,
    class_ref: Option<u32>,
    declaring: u32,
    kind: u32,
    op: u32,
) -> Result<(), PrivateAccessError> {
    let branded = if on_static(op) {
        class_ref == Some(declaring)
    } else {
        has_brand(cells, parents, bits, declaring)
    };
    if declaring == 0 {
        Ok(())
    } else if !branded {
        Err(PrivateAccessError::MissingBrand)
    } else if forbidden(kind, op) {
        Err(PrivateAccessError::WrongKind)
    } else {
        Ok(())
    }
}

/// Lets a legal access to a private member through: gives the receiver back.
/// The brand is tested before the kind.
pub fn js_private_guard(
    heap: &Heap,
    parents: &ClassParents,
    obj: JSValue,
    class_ref: Option<u32>,
    declaring_class_id: u32,
    _field_name: &[u8],
    kind: u32,
    op: u32,
) -> (r: Result<JSValue, PrivateAccessError>)
    ensures
        match private_access(
            heap@,
            parents@,
            obj.bits,
            class_ref,
            declaring_class_id,
            kind,
            op,
        ) {
            Ok(_) => r == Ok::<JSValue, PrivateAccessError>(obj),
            Err(e) => r == Err::<JSValue, PrivateAccessError>(e),
        },
{
    if declaring_class_id == 0 {
        return Ok(obj);
    }
    let branded = if op >= STATIC_READ {
        match class_ref {
            Some(c) => c == declaring_class_id,
            None => false,
        }
    } else {
        private_object_has_brand(heap, parents, obj, declaring_class_id)
    };
    if !branded {
        return Err(PrivateAccessError::MissingBrand);
    }
    let write = op % 2 == 1;
    let illegal = if write {
        kind == PRIVATE_GETTER || kind == PRIVATE_METHOD
    } else {
        kind == PRIVATE_SETTER
    };
    if illegal {
        return Err(PrivateAccessError::WrongKind);
    }
    Ok(obj)
}

// ---------------------------------------------------------------------------
// Laws
// ---------------------------------------------------------------------------
/// A class carries its own brand, and a subclass every brand of its parent.
pub proof fn brands_are_inherited(
    parents: Map<u32, u32>,
    class_id: u32,
    parent: u32,
    declaring: u32,
)
    requires
        parent_of(parents, class_id) == Some(parent),
        class_has_brand(parents, parent, declaring),
    ensures
        class_has_brand(parents, class_id, class_id),
        class_has_brand(parents, class_id, declaring),
{
    let n = choose|n: nat| #[trigger] ancestor(parents, parent, n) == Some(declaring);
    assert(ancestor(parents, class_id, 0) == Some(class_id));
    lemma_ancestor_from_parent(parents, class_id, parent, n);
    assert(ancestor(parents, class_id, n + 1) == Some(declaring));
}

proof fn lemma_ancestor_from_parent(
    parents: Map<u32, u32>,
    class_id: u32,
    parent: u32,
    n: nat,
)
    requires
        parent_of(parents, class_id) == Some(parent),
    ensures
        ancestor(parents, class_id, n + 1) == ancestor(parents, parent, n),
    decreases n,
{
    if n == 0 {
        assert(ancestor(parents, class_id, 0) == Some(class_id));
    } else {
        lemma_ancestor_from_parent(parents, class_id, parent, (n - 1) as nat);
    }
}

/// The guard and the brand check agree: where a class declares the member, an
/// instance read of a field passes exactly if the check finds the brand.
pub proof fn guard_agrees_with_brand_check(
    cells: Cells,
    parents: Map<u32, u32>,
    bits: u64,
    class_ref: Option<u32>,
    declaring: u32,
)
    requires
        declaring != 0,
    ensures
        private_access(
            cells,
            parents,
            bits,
            class_ref,
            declaring,
            PRIVATE_FIELD,
            INSTANCE_READ,
        ) is Ok <==> has_brand(cells, parents, bits, declaring),
{
}

/// A member that can be read and written is never refused for its kind.
pub proof fn full_members_allow_everything(
    cells: Cells,
    parents: Map<u32, u32>,
    bits: u64,
    class_ref: Option<u32>,
    declaring: u32,
    op: u32,
)
    ensures
        private_access(cells, parents, bits, class_ref, declaring, PRIVATE_FIELD, op)
            != Err::<(), PrivateAccessError>(PrivateAccessError::WrongKind),
        private_access(cells, parents, bits, class_ref, declaring, PRIVATE_GETTER_SETTER, op)
            != Err::<(), PrivateAccessError>(PrivateAccessError::WrongKind),
{
}

/// Is the one class registered as a child of the other?
pub open spec fn is_child(parents: Map<u32, u32>, child: u32, parent: u32) -> bool {
    &&& parents.dom().contains(child)
    &&& parents[child] == parent
    &&& parent != 0
    &&& parent != child
}

/// Is there a way up from one class to the other, each class on it registered as
/// a child of the next?
pub open spec fn descends(
    parents: Map<u32, u32>,
    class_id: u32,
    declaring: u32,
    way: Seq<u32>,
) -> bool {
    &&& way.len() > 0
    &&& way.first() == class_id
    &&& way.last() == declaring
    &&& forall|i: int, j: int|
        #![trigger way[i], way[j]]
        0 <= i && j == i + 1 && j < way.len() ==> is_child(parents, way[i], way[j])
}

proof fn lemma_way_up(parents: Map<u32, u32>, class_id: u32, declaring: u32, n: nat)
    requires
        ancestor(parents, class_id, n) == Some(declaring),
    ensures
        exists|way: Seq<u32>| descends(parents, class_id, declaring, way),
    decreases n,
{
    if n == 0 {
        assert(descends(parents, class_id, declaring, seq![class_id]));
    } else {
        let below = ancestor(parents, class_id, (n - 1) as nat)->0;
        lemma_way_up(parents, class_id, below, (n - 1) as nat);
        let way = choose|way: Seq<u32>| descends(parents, class_id, below, way);
        let longer = way.push(declaring);
        assert forall|i: int, j: int|
            #![trigger longer[i], longer[j]]
            0 <= i && j == i + 1 && j < longer.len() implies is_child(
            parents,
            longer[i],
            longer[j],
        ) by {
            assert(longer[i] == way[i]);
            if j < way.len() {
                assert(longer[j] == way[j]);
            }
        }
        assert(descends(parents, class_id, declaring, longer));
    }
}

proof fn lemma_way_is_a_chain(
    parents: Map<u32, u32>,
    class_id: u32,
    declaring: u32,
    way: Seq<u32>,
)
    requires
        descends(parents, class_id, declaring, way),
    ensures
        ancestor(parents, class_id, (way.len() - 1) as nat) == Some(declaring),
    decreases way.len(),
{
    if way.len() > 1 {
        let below = way[way.len() - 2];
        assert(way[way.len() - 1] == parents[below]);
        let rest = way.drop_last();
        assert forall|i: int, j: int|
            #![trigger rest[i], rest[j]]
            0 <= i && j == i + 1 && j < rest.len() implies is_child(
            parents,
            rest[i],
            rest[j],
        ) by {
            assert(rest[i] == way[i] && rest[j] == way[j]);
        }
        lemma_way_is_a_chain(parents, class_id, below, rest);
    }
}

/// The brand is that of instances: a value has it exactly if it refers to an
/// object whose class is the declaring one or leads up to it.
pub proof fn instances_have_the_brand(
    cells: Cells,
    parents: Map<u32, u32>,
    bits: u64,
    declaring: u32,
)
    ensures
        has_brand(cells, parents, bits, declaring) <==> {
            let addr = (bits & 0x0000_FFFF_FFFF_FFFFu64) as usize;
            &&& declaring != 0
            &&& bits & 0xFFFF_0000_0000_0000u64 == 0x7FFD_0000_0000_0000
            &&& cells.contains_key(addr)
            &&& cells[addr].cell is Object
            &&& cells[addr].cell->Object_0.header.class_id != 0
            &&& exists|way: Seq<u32>|
                descends(parents, cells[addr].cell->Object_0.header.class_id, declaring, way)
        },
{
    let class_id = class_of(cells, bits);
    if class_has_brand(parents, class_id, declaring) {
        let n = choose|n: nat| #[trigger] ancestor(parents, class_id, n) == Some(declaring);
        lemma_way_up(parents, class_id, declaring, n);
    }
    if exists|way: Seq<u32>| descends(parents, class_id, declaring, way) {
        let way = choose|way: Seq<u32>| descends(parents, class_id, declaring, way);
        lemma_way_is_a_chain(parents, class_id, declaring, way);
    }
}

/// The guard lets an access through unless the brand is missing or the kind of
/// member forbids it, and tests the brand first, whatever the kind. An instance
/// member needs an instance of the declaring class or of one below it; a static
/// member needs the declaring constructor itself. Fields and accessor pairs
/// allow reads and writes, methods and getters reads alone, setters writes
/// alone.
pub proof fn guard_tests_brand_and_kind(
    cells: Cells,
    parents: Map<u32, u32>,
    bits: u64,
    class_ref: Option<u32>,
    declaring: u32,
    kind: u32,
    op: u32,
)
    ensures
        ({
            let r = private_access(cells, parents, bits, class_ref, declaring, kind, op);
            let addr = (bits & 0x0000_FFFF_FFFF_FFFFu64) as usize;
            let instance = bits & 0xFFFF_0000_0000_0000u64 == 0x7FFD_0000_0000_0000
                && cells.contains_key(addr) && cells[addr].cell is Object
                && cells[addr].cell->Object_0.header.class_id != 0 && exists|way: Seq<u32>|
                descends(parents, cells[addr].cell->Object_0.header.class_id, declaring, way);
            let branded = if op == 0 || op == 1 {
                instance
            } else {
                class_ref == Some(declaring)
            };
            let refused = if op % 2 == 0 {
                kind == 3
            } else {
                kind == 1 || kind == 2
            };
            &&& declaring == 0 ==> r is Ok
            &&& declaring != 0 ==> {
                &&& r is Ok <==> branded && !refused
                &&& r == Err::<(), PrivateAccessError>(PrivateAccessError::MissingBrand)
                    <==> !branded
                &&& r == Err::<(), PrivateAccessError>(PrivateAccessError::WrongKind) <==> branded
                    && refused
            }
        }),
{
    instances_have_the_brand(cells, parents, bits, declaring);
}

/// `#name in obj` finds what the guard lets through: with a declaring class and
/// a name, the check is true exactly if no instance access misses the brand.
pub proof fn check_is_true_where_the_guard_finds_the_brand(
    cells: Cells,
    parents: Map<u32, u32>,
    bits: u64,
    class_ref: Option<u32>,
    declaring: u32,
    name: Seq<u8>,
    kind: u32,
    op: u32,
)
    requires
        declaring != 0,
        op == 0 || op == 1,
    ensures
        brand_checked(cells, parents, bits, declaring, name) <==> name.len() > 0
            && private_access(cells, parents, bits, class_ref, declaring, kind, op) != Err::<
            (),
            PrivateAccessError,
        >(PrivateAccessError::MissingBrand),
        !brand_checked(cells, parents, bits, 0, name),
{
}

} // verus!
