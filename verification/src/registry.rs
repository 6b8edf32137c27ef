//! The operator registry: names, arities and commutativity of the operators
//! an expression may use. Operator ids are positions in the registry.

use vstd::prelude::*;

verus! {

/// Metadata of one operator.
#[derive(Clone, Debug)]
pub struct OperatorMeta {
    pub name: String,
    pub arity: u8,
    pub is_commutative: bool,
}

/// The operators available to a search, indexed by operator id.
#[derive(Debug)]
pub struct OperatorRegistry {
    ops: Vec<OperatorMeta>,
}

/// `id` is the first operator named `name`.
pub open spec fn is_first_named(names: Seq<Seq<char>>, name: Seq<char>, id: int) -> bool {
    &&& 0 <= id < names.len()
    &&& names[id] == name
    &&& forall|j: int| 0 <= j < id ==> names[j] != name
}

/// Some operator is named `name`.
pub open spec fn has_name(names: Seq<Seq<char>>, name: Seq<char>) -> bool {
    exists|j: int| 0 <= j < names.len() && names[j] == name
}

/// The id of the first operator named `name`.
pub open spec fn op_id_of(names: Seq<Seq<char>>, name: Seq<char>) -> u8 {
    (choose|id: int| is_first_named(names, name, id)) as u8
}

/// The first named operator exists and is unique when some operator carries the name.
pub proof fn lemma_first_named(names: Seq<Seq<char>>, name: Seq<char>, id: int)
    requires
        is_first_named(names, name, id),
    ensures
        has_name(names, name),
        (choose|k: int| is_first_named(names, name, k)) == id,
{
    let k = choose|k: int| is_first_named(names, name, k);
    assert(is_first_named(names, name, k));
    if k < id {
        assert(names[k] == name);
    } else if id < k {
        assert(names[id] == name);
    }
}

/// The ids (increasing) of the operators in `arities` that have arity `a`.
pub open spec fn ids_with_arity(arities: Seq<u8>, a: u8) -> Seq<u8>
    decreases arities.len(),
{
    if arities.len() == 0 {
        Seq::empty()
    } else if arities.last() == a {
        ids_with_arity(arities.drop_last(), a).push((arities.len() - 1) as u8)
    } else {
        ids_with_arity(arities.drop_last(), a)
    }
}

fn op(name: &str, arity: u8, is_commutative: bool) -> (m: OperatorMeta)
    ensures
        m.name@ == name@,
        m.arity == arity,
        m.is_commutative == is_commutative,
{
    OperatorMeta { name: String::from_str(name), arity, is_commutative }
}

impl OperatorRegistry {
    #[verifier::type_invariant]
    spec fn inv(&self) -> bool {
        self.ops@.len() <= 256
    }

    /// Operator names by id.
    pub closed spec fn names(&self) -> Seq<Seq<char>> {
        self.ops@.map_values(|m: OperatorMeta| m.name@)
    }

    /// Operator arities by id.
    pub closed spec fn arities(&self) -> Seq<u8> {
        self.ops@.map_values(|m: OperatorMeta| m.arity)
    }

    /// Operator commutativity flags by id.
    pub closed spec fn commutative(&self) -> Seq<bool> {
        self.ops@.map_values(|m: OperatorMeta| m.is_commutative)
    }

    /// The full operator set of the fable pipeline.
    pub fn with_builtins() -> (r: OperatorRegistry)
        ensures
            r.names() == seq![
                "Plus"@, "Subtract"@, "Times"@, "Divide"@, "Pow"@, "EML"@, "Min"@, "Max"@,
                "Neg"@, "Inv"@, "Square"@, "Cube"@, "Sqrt"@, "Exp"@, "Log"@, "Sin"@, "Cos"@,
                "Tan"@, "Tanh"@, "Abs"@, "Sigmoid"@, "Pi"@, "E"@,
            ],
            r.arities() == seq![
                2u8, 2u8, 2u8, 2u8, 2u8, 2u8, 2u8, 2u8,
                1u8, 1u8, 1u8, 1u8, 1u8, 1u8, 1u8, 1u8, 1u8, 1u8, 1u8, 1u8, 1u8, 0u8, 0u8,
            ],
            r.commutative() == seq![
                true, false, true, false, false, false, true, true,
                false, false, false, false, false, false, false, false, false, false, false, false,
                false, false, false,
            ],
    {
        let mut ops: Vec<OperatorMeta> = Vec::new();
        ops.push(op("Plus", 2, true));
        ops.push(op("Subtract", 2, false));
        ops.push(op("Times", 2, true));
        ops.push(op("Divide", 2, false));
        ops.push(op("Pow", 2, false));
        ops.push(op("EML", 2, false));
        ops.push(op("Min", 2, true));
        ops.push(op("Max", 2, true));
        ops.push(op("Neg", 1, false));
        ops.push(op("Inv", 1, false));
        ops.push(op("Square", 1, false));
        ops.push(op("Cube", 1, false));
        ops.push(op("Sqrt", 1, false));
        ops.push(op("Exp", 1, false));
        ops.push(op("Log", 1, false));
        ops.push(op("Sin", 1, false));
        ops.push(op("Cos", 1, false));
        ops.push(op("Tan", 1, false));
        ops.push(op("Tanh", 1, false));
        ops.push(op("Abs", 1, false));
        ops.push(op("Sigmoid", 1, false));
        ops.push(op("Pi", 0, false));
        ops.push(op("E", 0, false));
        let r = OperatorRegistry { ops };
        assert(r.names() =~= seq![
            "Plus"@, "Subtract"@, "Times"@, "Divide"@, "Pow"@, "EML"@, "Min"@, "Max"@,
            "Neg"@, "Inv"@, "Square"@, "Cube"@, "Sqrt"@, "Exp"@, "Log"@, "Sin"@, "Cos"@,
            "Tan"@, "Tanh"@, "Abs"@, "Sigmoid"@, "Pi"@, "E"@,
        ]);
        assert(r.arities() =~= seq![
            2u8, 2u8, 2u8, 2u8, 2u8, 2u8, 2u8, 2u8,
            1u8, 1u8, 1u8, 1u8, 1u8, 1u8, 1u8, 1u8, 1u8, 1u8, 1u8, 1u8, 1u8, 0u8, 0u8,
        ]);
        assert(r.commutative() =~= seq![
            true, false, true, false, false, false, true, true,
            false, false, false, false, false, false, false, false, false, false, false, false,
            false, false, false,
        ]);
        r
    }

    /// The pure-EML grammar: EML as the only function primitive, with
    /// Plus, Times and Neg as arithmetic glue.
    pub fn pure_eml() -> (r: OperatorRegistry)
        ensures
            r.names() == seq!["Plus"@, "Times"@, "Neg"@, "EML"@],
            r.arities() == seq![2u8, 2u8, 1u8, 2u8],
            r.commutative() == seq![true, true, false, false],
    {
        let mut ops: Vec<OperatorMeta> = Vec::new();
        ops.push(op("Plus", 2, true));
        ops.push(op("Times", 2, true));
        ops.push(op("Neg", 1, false));
        ops.push(op("EML", 2, false));
        let r = OperatorRegistry { ops };
        assert(r.names() =~= seq!["Plus"@, "Times"@, "Neg"@, "EML"@]);
        assert(r.arities() =~= seq![2u8, 2u8, 1u8, 2u8]);
        assert(r.commutative() =~= seq![true, true, false, false]);
        r
    }

    /// Number of operators.
    pub fn len(&self) -> (n: usize)
        ensures
            n == self.names().len(),
            n <= 256,
            self.arities().len() == n,
            self.commutative().len() == n,
    {
        proof {
            use_type_invariant(self);
        }
        self.ops.len()
    }

    /// Metadata of operator `op_id`.
    pub fn meta(&self, op_id: u8) -> (m: &OperatorMeta)
        requires
            op_id < self.names().len(),
        ensures
            m.name@ == self.names()[op_id as int],
            m.arity == self.arities()[op_id as int],
            m.is_commutative == self.commutative()[op_id as int],
    {
        &self.ops[op_id as usize]
    }

    /// The id of the first operator named `name`, if any.
    pub fn id_by_name(&self, name: &str) -> (r: Option<u8>)
        ensures
            match r {
                Some(id) => is_first_named(self.names(), name@, id as int) && id == op_id_of(
                    self.names(),
                    name@,
                ),
                None => !has_name(self.names(), name@),
            },
    {
        proof {
            use_type_invariant(self);
        }
        let key = String::from_str(name);
        let mut i: usize = 0;
        while i < self.ops.len()
            invariant
                i <= self.ops@.len(),
                self.ops@.len() <= 256,
                key@ == name@,
                forall|j: int| 0 <= j < i ==> self.names()[j] != name@,
            decreases self.ops@.len() - i,
        {
            if self.ops[i].name == key {
                proof {
                    lemma_first_named(self.names(), name@, i as int);
                }
                return Some(i as u8);
            }
            i += 1;
        }
        None
    }

    /// The ids of all operators of the given arity, in increasing order.
    pub fn ids_by_arity(&self, arity: u8) -> (r: Vec<u8>)
        ensures
            r@ == ids_with_arity(self.arities(), arity),
    {
        proof {
            use_type_invariant(self);
        }
        let mut r: Vec<u8> = Vec::new();
        let mut i: usize = 0;
        while i < self.ops.len()
            invariant
                i <= self.ops@.len(),
                self.ops@.len() <= 256,
                r@ == ids_with_arity(self.arities().take(i as int), arity),
            decreases self.ops@.len() - i,
        {
            assert(self.arities().take(i + 1).drop_last() =~= self.arities().take(i as int));
            if self.ops[i].arity == arity {
                r.push(i as u8);
            }
            i += 1;
        }
        assert(self.arities().take(self.ops@.len() as int) =~= self.arities());
        r
    }
}

} // verus!

verus! {

/// Every id listed by `ids_with_arity` names an operator of that arity.
pub proof fn lemma_ids_with_arity(arities: Seq<u8>, a: u8)
    requires
        arities.len() <= 256,
    ensures
        forall|k: int|
            0 <= k < ids_with_arity(arities, a).len() ==> (#[trigger] ids_with_arity(arities, a)[k])
                < arities.len() && arities[ids_with_arity(arities, a)[k] as int] == a,
    decreases arities.len(),
{
    if arities.len() > 0 {
        let p = arities.drop_last();
        lemma_ids_with_arity(p, a);
        assert forall|k: int|
            0 <= k < ids_with_arity(arities, a).len() implies (#[trigger] ids_with_arity(
            arities,
            a,
        )[k]) < arities.len() && arities[ids_with_arity(arities, a)[k] as int] == a by {
            if k < ids_with_arity(p, a).len() {
                assert(ids_with_arity(arities, a)[k] == ids_with_arity(p, a)[k]);
                assert(arities[ids_with_arity(p, a)[k] as int] == p[ids_with_arity(p, a)[k] as int]);
            }
        }
    }
}

} // verus!
