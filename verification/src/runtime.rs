use vstd::prelude::*;

use crate::ast::expressions::{BinOp, Expr, Lit, Stmt, UnOp};
use crate::ast::patterns::Pat;
use crate::ast::{Field, ItemDeclaration, ItemFn};
use crate::lrfrp_ir::LrfrpIR;

verus! {

// ---------------------------------------------------------------------
// Runtime values and their mathematical model.
// ---------------------------------------------------------------------

/// A runtime value of the generated program.
#[derive(Debug, PartialEq)]
pub enum Value {
    Int(i64),
    Bool(bool),
    Tuple(Vec<Value>),
    List(Vec<Value>),
}

/// The mathematical shape of a runtime value.
#[verifier::ext_equal]
pub enum ValueV {
    Int(i64),
    Bool(bool),
    Tuple(Seq<ValueV>),
    List(Seq<ValueV>),
}

impl View for Value {
    type V = ValueV;

    open spec fn view(&self) -> ValueV
        decreases self,
    {
        match self {
            Value::Int(i) => ValueV::Int(*i),
            Value::Bool(b) => ValueV::Bool(*b),
            Value::Tuple(vs) => ValueV::Tuple(view_list(vs@)),
            Value::List(vs) => ValueV::List(view_list(vs@)),
        }
    }
}

/// The shapes of the elements of a value list.
pub open spec fn view_list(s: Seq<Value>) -> Seq<ValueV>
    decreases s,
{
    if s.len() == 0 {
        Seq::empty()
    } else {
        view_list(s.drop_last()).push(s.last()@)
    }
}

/// `view_list` is the element-wise shape list.
pub proof fn lemma_view_list(s: Seq<Value>)
    ensures
        view_list(s).len() == s.len(),
        forall|i: int| 0 <= i < s.len() ==> #[trigger] view_list(s)[i] == s[i]@,
    decreases s,
{
    if s.len() > 0 {
        lemma_view_list(s.drop_last());
        assert(view_list(s) == view_list(s.drop_last()).push(s.last()@));
        assert(view_list(s).len() == view_list(s.drop_last()).len() + 1);
        assert(view_list(s).len() == s.len());
        assert forall|i: int| 0 <= i < s.len() implies #[trigger] view_list(s)[i] == s[i]@ by {
            if i < s.len() - 1 {
                assert(view_list(s)[i] == view_list(s.drop_last()).push(s.last()@)[i]);
                assert(view_list(s.drop_last()).push(s.last()@)[i] == view_list(
                    s.drop_last(),
                )[i]);
                assert(view_list(s.drop_last())[i] == s.drop_last()[i]@);
                assert(s.drop_last()[i] == s[i]);
            } else {
                assert(view_list(s)[i] == s.last()@);
            }
        }
    }
}

/// The unit value: the empty tuple.
pub open spec fn unit_value() -> ValueV {
    ValueV::Tuple(Seq::empty())
}

/// The shapes of a list of values.
pub open spec fn vals_views(s: Seq<Value>) -> Seq<ValueV> {
    Seq::new(s.len(), |i: int| s[i]@)
}

// ---------------------------------------------------------------------
// Named-value stores.
// ---------------------------------------------------------------------

/// A named-value store: register storage, argument values, and the
/// signals computed so far in a tick.  Lookups scan from the end, so a
/// later binding shadows an earlier one.
#[derive(Debug, PartialEq)]
pub struct ValEnv {
    pub entries: Vec<(String, Value)>,
}

/// The bindings of a store, as (name, shape) pairs in binding order.
pub open spec fn env_pairs(v: ValEnv) -> Seq<(Seq<char>, ValueV)> {
    Seq::new(v.entries@.len(), |i: int| (v.entries@[i].0@, v.entries@[i].1@))
}

/// The map described by a binding list, later bindings winning.
pub open spec fn pairs_map(s: Seq<(Seq<char>, ValueV)>) -> Map<Seq<char>, ValueV>
    decreases s,
{
    if s.len() == 0 {
        Map::empty()
    } else {
        pairs_map(s.drop_last()).insert(s.last().0, s.last().1)
    }
}

/// A store, read as a map from name to the value bound last.
pub open spec fn env_map(v: ValEnv) -> Map<Seq<char>, ValueV> {
    pairs_map(env_pairs(v))
}

/// A name is bound in a list's map exactly when some pair carries it.
pub proof fn lemma_pairs_map_dom(s: Seq<(Seq<char>, ValueV)>)
    ensures
        forall|n: Seq<char>|
            #[trigger] pairs_map(s).dom().contains(n) <==> exists|i: int|
                0 <= i < s.len() && #[trigger] s[i].0 == n,
    decreases s,
{
    if s.len() > 0 {
        lemma_pairs_map_dom(s.drop_last());
        assert forall|n: Seq<char>| #[trigger] pairs_map(s).dom().contains(n) implies exists|
            i: int,
        | 0 <= i < s.len() && #[trigger] s[i].0 == n by {
            if n == s.last().0 {
                assert(s[s.len() - 1].0 == n);
            } else {
                assert(pairs_map(s.drop_last()).dom().contains(n));
                let i = choose|i: int|
                    0 <= i < s.drop_last().len() && #[trigger] s.drop_last()[i].0 == n;
                assert(s[i].0 == n);
            }
        }
        assert forall|n: Seq<char>|
            (exists|i: int| 0 <= i < s.len() && #[trigger] s[i].0 == n) implies pairs_map(
            s,
        ).dom().contains(n) by {
            let i = choose|i: int| 0 <= i < s.len() && #[trigger] s[i].0 == n;
            if i < s.len() - 1 {
                assert(s.drop_last()[i] == s[i]);
                assert(pairs_map(s.drop_last()).dom().contains(n));
            }
        }
    }
}

/// The value a list's map binds a name to is the one of the last pair
/// that carries the name.
pub proof fn lemma_pairs_map_value(s: Seq<(Seq<char>, ValueV)>, i: int)
    requires
        0 <= i < s.len(),
        forall|j: int| i < j < s.len() ==> s[j].0 != s[i].0,
    ensures
        pairs_map(s).dom().contains(s[i].0),
        pairs_map(s)[s[i].0] == s[i].1,
    decreases s,
{
    if i == s.len() - 1 {
    } else {
        assert(s.last().0 != s[i].0);
        assert(s.drop_last()[i] == s[i]);
        assert forall|j: int| i < j < s.drop_last().len() implies s.drop_last()[j].0
            != s.drop_last()[i].0 by {
            assert(s.drop_last()[j] == s[j]);
        }
        lemma_pairs_map_value(s.drop_last(), i);
    }
}

impl ValEnv {
    /// An empty store.
    pub fn new() -> (r: ValEnv)
        ensures
            r.entries@.len() == 0,
            env_pairs(r) == Seq::<(Seq<char>, ValueV)>::empty(),
            env_map(r) == Map::<Seq<char>, ValueV>::empty(),
    {
        let r = ValEnv { entries: Vec::new() };
        proof {
            assert(env_pairs(r) =~= Seq::<(Seq<char>, ValueV)>::empty());
        }
        r
    }

    /// Bind a name to a value.
    pub fn push(&mut self, name: String, v: Value)
        ensures
            final(self).entries@ == old(self).entries@.push((name, v)),
            env_pairs(*final(self)) == env_pairs(*old(self)).push((name@, v@)),
            env_map(*final(self)) == env_map(*old(self)).insert(name@, v@),
    {
        self.entries.push((name, v));
        proof {
            assert(env_pairs(*self) =~= env_pairs(*old(self)).push((name@, v@)));
            assert(env_pairs(*self).drop_last() =~= env_pairs(*old(self)));
        }
    }

    /// The value most recently bound to a name.
    pub fn get(&self, name: &String) -> (r: Option<&Value>)
        ensures
            r is Some <==> env_map(*self).dom().contains(name@),
            r matches Some(v) ==> env_map(*self)[name@] == v@,
    {
        proof {
            lemma_pairs_map_dom(env_pairs(*self));
        }
        let n = self.entries.len();
        let mut i: usize = n;
        while i > 0
            invariant
                i <= n,
                n == self.entries@.len(),
                forall|j: int| i <= j < n ==> #[trigger] self.entries@[j].0@ != name@,
            decreases i,
        {
            i = i - 1;
            if self.entries[i].0.eq(name) {
                proof {
                    assert(env_pairs(*self)[i as int].0 == name@);
                    assert forall|j: int| i < j < env_pairs(*self).len() implies env_pairs(
                        *self,
                    )[j].0 != name@ by {
                        assert(self.entries@[j].0@ != name@);
                    }
                    lemma_pairs_map_value(env_pairs(*self), i as int);
                    assert(env_map(*self)[name@] == env_pairs(*self)[i as int].1);
                }
                return Some(&self.entries[i].1);
            }
        }
        proof {
            assert forall|j: int| 0 <= j < env_pairs(*self).len() implies env_pairs(*self)[j].0
                != name@ by {
                assert(self.entries@[j].0@ != name@);
            }
        }
        None
    }

    /// How many bindings the store holds.
    pub fn len(&self) -> (r: usize)
        ensures
            r == self.entries@.len(),
    {
        self.entries.len()
    }

    /// Drop the bindings past a remembered depth, restoring the store
    /// to exactly the bindings it held there.
    pub fn truncate_to(&mut self, depth: usize, Ghost(ent0): Ghost<Seq<(String, Value)>>)
        requires
            depth == ent0.len(),
            ent0.is_prefix_of(old(self).entries@),
        ensures
            final(self).entries@ == ent0,
    {
        self.entries.truncate(depth);
        proof {
            assert(self.entries@ =~= ent0);
        }
    }
}

/// Being a prefix is transitive.
pub proof fn lemma_prefix_trans<T>(a: Seq<T>, b: Seq<T>, c: Seq<T>)
    requires
        a.is_prefix_of(b),
        b.is_prefix_of(c),
    ensures
        a.is_prefix_of(c),
{
    assert(a =~= c.subrange(0, a.len() as int));
}

// ---------------------------------------------------------------------
// Structural copying and comparison of values.
// ---------------------------------------------------------------------

/// A structural copy of a value.
pub fn value_dup(v: &Value) -> (r: Value)
    ensures
        r@ == v@,
    decreases v,
{
    match v {
        Value::Int(i) => Value::Int(*i),
        Value::Bool(b) => Value::Bool(*b),
        Value::Tuple(vs) => {
            let mut out: Vec<Value> = Vec::new();
            let n = vs.len();
            let mut i: usize = 0;
            while i < n
                invariant
                    n == vs@.len(),
                    i <= n,
                    out@.len() == i,
                    forall|k: int| 0 <= k < i ==> #[trigger] out@[k]@ == vs@[k]@,
                    *v matches Value::Tuple(vv) && vv == *vs,
                decreases n - i,
            {
                proof {
                    assert(decreases_to!(*v => v->Tuple_0@[i as int]));
                }
                let c = value_dup(&vs[i]);
                out.push(c);
                i = i + 1;
            }
            let r = Value::Tuple(out);
            proof {
                lemma_view_list(out@);
                lemma_view_list(vs@);
                assert(r@->Tuple_0 =~= v@->Tuple_0);
            }
            r
        },
        Value::List(vs) => {
            let mut out: Vec<Value> = Vec::new();
            let n = vs.len();
            let mut i: usize = 0;
            while i < n
                invariant
                    n == vs@.len(),
                    i <= n,
                    out@.len() == i,
                    forall|k: int| 0 <= k < i ==> #[trigger] out@[k]@ == vs@[k]@,
                    *v matches Value::List(vv) && vv == *vs,
                decreases n - i,
            {
                proof {
                    assert(decreases_to!(*v => v->List_0@[i as int]));
                }
                let c = value_dup(&vs[i]);
                out.push(c);
                i = i + 1;
            }
            let r = Value::List(out);
            proof {
                lemma_view_list(out@);
                lemma_view_list(vs@);
                assert(r@->List_0 =~= v@->List_0);
            }
            r
        },
    }
}

/// Structural equality of two value shapes; `None` when the shapes
/// cannot be compared.  Tuples compare only at equal width; lists of
/// different lengths compare unequal.
pub open spec fn spec_val_eq(a: ValueV, b: ValueV) -> Option<bool>
    decreases a,
{
    match (a, b) {
        (ValueV::Int(x), ValueV::Int(y)) => Some(x == y),
        (ValueV::Bool(x), ValueV::Bool(y)) => Some(x == y),
        (ValueV::Tuple(xs), ValueV::Tuple(ys)) => if xs.len() != ys.len() {
            None
        } else {
            spec_val_eq_seq(xs, ys)
        },
        (ValueV::List(xs), ValueV::List(ys)) => if xs.len() != ys.len() {
            Some(false)
        } else {
            spec_val_eq_seq(xs, ys)
        },
        _ => None,
    }
}

/// Element-wise comparison of two equally long shape lists; every
/// element is visited, so an incomparable pair anywhere yields `None`.
pub open spec fn spec_val_eq_seq(xs: Seq<ValueV>, ys: Seq<ValueV>) -> Option<bool>
    decreases xs,
{
    if xs.len() == 0 {
        Some(true)
    } else {
        match spec_val_eq(xs[0], ys[0]) {
            None => None,
            Some(h) => match spec_val_eq_seq(xs.drop_first(), ys.drop_first()) {
                None => None,
                Some(t) => Some(h && t),
            },
        }
    }
}

/// Structural equality of two runtime values, as `spec_val_eq` says.
pub fn value_eq(a: &Value, b: &Value) -> (r: Option<bool>)
    ensures
        r == spec_val_eq(a@, b@),
    decreases a,
{
    match (a, b) {
        (Value::Int(x), Value::Int(y)) => Some(*x == *y),
        (Value::Bool(x), Value::Bool(y)) => Some(*x == *y),
        (Value::Tuple(xs), Value::Tuple(ys)) => {
            proof {
                lemma_view_list(xs@);
                lemma_view_list(ys@);
            }
            if xs.len() != ys.len() {
                return None;
            }
            let n = xs.len();
            proof {
                assert(a@->Tuple_0.skip(0) =~= a@->Tuple_0);
                assert(b@->Tuple_0.skip(0) =~= b@->Tuple_0);
            }
            let mut i: usize = 0;
            let mut all = true;
            while i < n
                invariant
                    n == xs@.len(),
                    n == ys@.len(),
                    i <= n,
                    *a matches Value::Tuple(aa) && aa == *xs,
                    *b matches Value::Tuple(bb) && bb == *ys,
                    spec_val_eq_seq(a@->Tuple_0, b@->Tuple_0) == (match spec_val_eq_seq(
                        a@->Tuple_0.skip(i as int),
                        b@->Tuple_0.skip(i as int),
                    ) {
                        None => None::<bool>,
                        Some(t) => Some(all && t),
                    }),
                decreases n - i,
            {
                proof {
                    assert(decreases_to!(*a => a->Tuple_0@[i as int]));
                    lemma_view_list(xs@);
                    lemma_view_list(ys@);
                    assert(a@->Tuple_0.skip(i as int)[0] == a@->Tuple_0[i as int]);
                    assert(b@->Tuple_0.skip(i as int)[0] == b@->Tuple_0[i as int]);
                    assert(a@->Tuple_0.skip(i as int).drop_first() =~= a@->Tuple_0.skip(
                        (i + 1) as int,
                    ));
                    assert(b@->Tuple_0.skip(i as int).drop_first() =~= b@->Tuple_0.skip(
                        (i + 1) as int,
                    ));
                }
                match value_eq(&xs[i], &ys[i]) {
                    Some(e) => {
                        if !e {
                            all = false;
                        }
                    },
                    None => {
                        return None;
                    },
                }
                i = i + 1;
            }
            proof {
                assert(a@->Tuple_0.skip(n as int) =~= Seq::<ValueV>::empty());
                assert(b@->Tuple_0.skip(n as int) =~= Seq::<ValueV>::empty());
            }
            Some(all)
        },
        (Value::List(xs), Value::List(ys)) => {
            proof {
                lemma_view_list(xs@);
                lemma_view_list(ys@);
            }
            if xs.len() != ys.len() {
                return Some(false);
            }
            let n = xs.len();
            proof {
                assert(a@->List_0.skip(0) =~= a@->List_0);
                assert(b@->List_0.skip(0) =~= b@->List_0);
            }
            let mut i: usize = 0;
            let mut all = true;
            while i < n
                invariant
                    n == xs@.len(),
                    n == ys@.len(),
                    i <= n,
                    *a matches Value::List(aa) && aa == *xs,
                    *b matches Value::List(bb) && bb == *ys,
                    spec_val_eq_seq(a@->List_0, b@->List_0) == (match spec_val_eq_seq(
                        a@->List_0.skip(i as int),
                        b@->List_0.skip(i as int),
                    ) {
                        None => None::<bool>,
                        Some(t) => Some(all && t),
                    }),
                decreases n - i,
            {
                proof {
                    assert(decreases_to!(*a => a->List_0@[i as int]));
                    lemma_view_list(xs@);
                    lemma_view_list(ys@);
                    assert(a@->List_0.skip(i as int)[0] == a@->List_0[i as int]);
                    assert(b@->List_0.skip(i as int)[0] == b@->List_0[i as int]);
                    assert(a@->List_0.skip(i as int).drop_first() =~= a@->List_0.skip(
                        (i + 1) as int,
                    ));
                    assert(b@->List_0.skip(i as int).drop_first() =~= b@->List_0.skip(
                        (i + 1) as int,
                    ));
                }
                match value_eq(&xs[i], &ys[i]) {
                    Some(e) => {
                        if !e {
                            all = false;
                        }
                    },
                    None => {
                        return None;
                    },
                }
                i = i + 1;
            }
            proof {
                assert(a@->List_0.skip(n as int) =~= Seq::<ValueV>::empty());
                assert(b@->List_0.skip(n as int) =~= Seq::<ValueV>::empty());
            }
            Some(all)
        },
        _ => None,
    }
}


// ---------------------------------------------------------------------
// Arithmetic of the generated target language.
// ---------------------------------------------------------------------

/// The value fits a 64-bit signed machine word.
pub open spec fn fits_i64(x: int) -> bool {
    i64::MIN <= x <= i64::MAX
}

/// The absolute value.
pub open spec fn abs_int(a: int) -> int {
    if a < 0 {
        -a
    } else {
        a
    }
}

/// Truncated signed division, as the target language divides.
pub open spec fn trunc_div(a: int, b: int) -> int {
    let q = abs_int(a) / abs_int(b);
    if (a < 0) != (b < 0) {
        -q
    } else {
        q
    }
}

/// Truncated signed remainder: the sign follows the dividend.
pub open spec fn trunc_rem(a: int, b: int) -> int {
    let m = abs_int(a) % abs_int(b);
    if a < 0 {
        -m
    } else {
        m
    }
}

/// Exponentiation by repeated checked multiplication: `None` as soon as
/// an intermediate product leaves the 64-bit range.
pub open spec fn spec_pow_loop(acc: i64, x: i64, remaining: nat) -> Option<i64>
    decreases remaining,
{
    if remaining == 0 {
        Some(acc)
    } else if fits_i64(acc as int * x as int) {
        spec_pow_loop((acc as int * x as int) as i64, x, (remaining - 1) as nat)
    } else {
        None
    }
}

/// Checked 64-bit multiplication through a wide intermediate.
fn mul_i64(x: i64, y: i64) -> (r: Option<i64>)
    ensures
        r == (if fits_i64(x as int * y as int) {
            Some((x as int * y as int) as i64)
        } else {
            None::<i64>
        }),
{
    let xi = x as i128;
    let yi = y as i128;
    proof {
        assert(xi * yi <= 0x40000000000000000000000000000000i128 && xi * yi
            >= -0x40000000000000000000000000000000i128) by (nonlinear_arith)
            requires
                xi <= 0x7fffffffffffffffi128,
                xi >= -0x8000000000000000i128,
                yi <= 0x7fffffffffffffffi128,
                yi >= -0x8000000000000000i128,
        ;
    }
    let wide = xi * yi;
    if wide < (i64::MIN as i128) || wide > (i64::MAX as i128) {
        None
    } else {
        Some(wide as i64)
    }
}

/// The magnitude of a 64-bit signed value.
fn abs_u64(a: i64) -> (r: u64)
    ensures
        r as int == abs_int(a as int),
{
    if a < 0 {
        let wide = -(a as i128);
        proof {
            assert(0 <= wide <= u64::MAX as i128);
        }
        wide as u64
    } else {
        a as u64
    }
}

/// Truncated signed division through unsigned magnitudes; `None` on a
/// zero divisor or on the one overflowing quotient.
fn div_i64(a: i64, b: i64) -> (r: Option<i64>)
    ensures
        r == (if b == 0 || (a == i64::MIN && b == -1) {
            None::<i64>
        } else {
            Some(trunc_div(a as int, b as int) as i64)
        }),
{
    if b == 0 {
        return None;
    }
    if a == i64::MIN && b == -1 {
        return None;
    }
    let ua = abs_u64(a);
    let ub = abs_u64(b);
    let uq = ua / ub;
    proof {
        assert(uq as int <= ua as int) by (nonlinear_arith)
            requires
                ub as int >= 1,
                ua as int >= 0,
                uq as int == ua as int / ub as int,
        ;
    }
    if (a < 0) != (b < 0) {
        let neg = -(uq as i128);
        proof {
            assert(i64::MIN as i128 <= neg <= 0);
        }
        Some(neg as i64)
    } else {
        proof {
            if a == i64::MIN {
                assert(b <= -2);
                assert(ub as int >= 2);
                assert(uq as int <= ua as int / 2) by (nonlinear_arith)
                    requires
                        ub as int >= 2,
                        ua as int >= 0,
                        uq as int == ua as int / ub as int,
                ;
            }
            assert(uq as int <= i64::MAX as int);
        }
        Some(uq as i64)
    }
}

/// Truncated signed remainder through unsigned magnitudes; `None` under
/// the same exclusions as division.
fn rem_i64(a: i64, b: i64) -> (r: Option<i64>)
    ensures
        r == (if b == 0 || (a == i64::MIN && b == -1) {
            None::<i64>
        } else {
            Some(trunc_rem(a as int, b as int) as i64)
        }),
{
    if b == 0 {
        return None;
    }
    if a == i64::MIN && b == -1 {
        return None;
    }
    let ua = abs_u64(a);
    let ub = abs_u64(b);
    let ur = ua % ub;
    proof {
        assert(0 <= (ur as int) && (ur as int) < (ub as int));
    }
    if a < 0 {
        let neg = -(ur as i128);
        proof {
            assert(i64::MIN as i128 <= neg <= 0);
        }
        Some(neg as i64)
    } else {
        Some(ur as i64)
    }
}

/// What a binary operator yields on two evaluated shapes: `None` stands
/// for a stuck evaluation — mismatched kinds, overflow, a zero divisor,
/// an oversized shift, or a negative exponent.
pub open spec fn spec_binop(op: BinOp, a: ValueV, b: ValueV) -> Option<ValueV> {
    match op {
        BinOp::Add => match (a, b) {
            (ValueV::Int(x), ValueV::Int(y)) => if fits_i64(x as int + y as int) {
                Some(ValueV::Int((x as int + y as int) as i64))
            } else {
                None
            },
            _ => None,
        },
        BinOp::Sub => match (a, b) {
            (ValueV::Int(x), ValueV::Int(y)) => if fits_i64(x as int - y as int) {
                Some(ValueV::Int((x as int - y as int) as i64))
            } else {
                None
            },
            _ => None,
        },
        BinOp::Mul => match (a, b) {
            (ValueV::Int(x), ValueV::Int(y)) => if fits_i64(x as int * y as int) {
                Some(ValueV::Int((x as int * y as int) as i64))
            } else {
                None
            },
            _ => None,
        },
        BinOp::Div => match (a, b) {
            (ValueV::Int(x), ValueV::Int(y)) => if y == 0 || (x == i64::MIN && y == -1) {
                None
            } else {
                Some(ValueV::Int(trunc_div(x as int, y as int) as i64))
            },
            _ => None,
        },
        BinOp::Rem => match (a, b) {
            (ValueV::Int(x), ValueV::Int(y)) => if y == 0 || (x == i64::MIN && y == -1) {
                None
            } else {
                Some(ValueV::Int(trunc_rem(x as int, y as int) as i64))
            },
            _ => None,
        },
        BinOp::Pow => match (a, b) {
            (ValueV::Int(x), ValueV::Int(y)) => if y < 0 {
                None
            } else {
                match spec_pow_loop(1, x, y as nat) {
                    None => None,
                    Some(p) => Some(ValueV::Int(p)),
                }
            },
            _ => None,
        },
        BinOp::And => match (a, b) {
            (ValueV::Bool(x), ValueV::Bool(y)) => Some(ValueV::Bool(x && y)),
            _ => None,
        },
        BinOp::Or => match (a, b) {
            (ValueV::Bool(x), ValueV::Bool(y)) => Some(ValueV::Bool(x || y)),
            _ => None,
        },
        BinOp::BitXor => match (a, b) {
            (ValueV::Int(x), ValueV::Int(y)) => Some(ValueV::Int(x ^ y)),
            (ValueV::Bool(x), ValueV::Bool(y)) => Some(ValueV::Bool(x != y)),
            _ => None,
        },
        BinOp::BitAnd => match (a, b) {
            (ValueV::Int(x), ValueV::Int(y)) => Some(ValueV::Int(x & y)),
            (ValueV::Bool(x), ValueV::Bool(y)) => Some(ValueV::Bool(x && y)),
            _ => None,
        },
        BinOp::BitOr => match (a, b) {
            (ValueV::Int(x), ValueV::Int(y)) => Some(ValueV::Int(x | y)),
            (ValueV::Bool(x), ValueV::Bool(y)) => Some(ValueV::Bool(x || y)),
            _ => None,
        },
        BinOp::Shl => match (a, b) {
            (ValueV::Int(x), ValueV::Int(y)) => if y < 0 || y >= 64 {
                None
            } else {
                Some(ValueV::Int(x << y))
            },
            _ => None,
        },
        BinOp::Shr => match (a, b) {
            (ValueV::Int(x), ValueV::Int(y)) => if y < 0 || y >= 64 {
                None
            } else {
                Some(ValueV::Int(x >> y))
            },
            _ => None,
        },
        BinOp::Eq => match spec_val_eq(a, b) {
            None => None,
            Some(e) => Some(ValueV::Bool(e)),
        },
        BinOp::Ne => match spec_val_eq(a, b) {
            None => None,
            Some(e) => Some(ValueV::Bool(!e)),
        },
        BinOp::Lt => match (a, b) {
            (ValueV::Int(x), ValueV::Int(y)) => Some(ValueV::Bool(x < y)),
            _ => None,
        },
        BinOp::Le => match (a, b) {
            (ValueV::Int(x), ValueV::Int(y)) => Some(ValueV::Bool(x <= y)),
            _ => None,
        },
        BinOp::Gt => match (a, b) {
            (ValueV::Int(x), ValueV::Int(y)) => Some(ValueV::Bool(x > y)),
            _ => None,
        },
        BinOp::Ge => match (a, b) {
            (ValueV::Int(x), ValueV::Int(y)) => Some(ValueV::Bool(x >= y)),
            _ => None,
        },
    }
}

/// The shape of an optional value.
pub open spec fn opt_view(o: Option<Value>) -> Option<ValueV> {
    match o {
        Some(v) => Some(v@),
        None => None,
    }
}

/// Apply a binary operator to two evaluated operands, exactly as
/// `spec_binop` says.
#[verifier::rlimit(60)]
pub fn eval_binop(op: BinOp, a: Value, b: Value) -> (r: Option<Value>)
    ensures
        opt_view(r) == spec_binop(op, a@, b@),
{
    match op {
        BinOp::Add => match (a, b) {
            (Value::Int(x), Value::Int(y)) => {
                let wide = (x as i128) + (y as i128);
                if wide < (i64::MIN as i128) || wide > (i64::MAX as i128) {
                    None
                } else {
                    Some(Value::Int(wide as i64))
                }
            },
            _ => None,
        },
        BinOp::Sub => match (a, b) {
            (Value::Int(x), Value::Int(y)) => {
                let wide = (x as i128) - (y as i128);
                if wide < (i64::MIN as i128) || wide > (i64::MAX as i128) {
                    None
                } else {
                    Some(Value::Int(wide as i64))
                }
            },
            _ => None,
        },
        BinOp::Mul => match (a, b) {
            (Value::Int(x), Value::Int(y)) => match mul_i64(x, y) {
                Some(p) => Some(Value::Int(p)),
                None => None,
            },
            _ => None,
        },
        BinOp::Div => match (a, b) {
            (Value::Int(x), Value::Int(y)) => match div_i64(x, y) {
                Some(q) => Some(Value::Int(q)),
                None => None,
            },
            _ => None,
        },
        BinOp::Rem => match (a, b) {
            (Value::Int(x), Value::Int(y)) => match rem_i64(x, y) {
                Some(q) => Some(Value::Int(q)),
                None => None,
            },
            _ => None,
        },
        BinOp::Pow => match (a, b) {
            (Value::Int(x), Value::Int(y)) => {
                if y < 0 {
                    return None;
                }
                let mut acc: i64 = 1;
                let mut k: i64 = 0;
                while k < y
                    invariant
                        0 <= k <= y,
                        op == BinOp::Pow,
                        a@ == ValueV::Int(x),
                        b@ == ValueV::Int(y),
                        spec_pow_loop(acc, x, (y - k) as nat) == spec_pow_loop(1, x, y as nat),
                    decreases y - k,
                {
                    match mul_i64(acc, x) {
                        Some(p) => {
                            acc = p;
                        },
                        None => {
                            proof {
                                assert((y - k) as nat != 0);
                                assert(spec_pow_loop(acc, x, (y - k) as nat) is None);
                                assert(spec_pow_loop(1, x, y as nat) is None);
                            }
                            return None;
                        },
                    }
                    k = k + 1;
                }
                Some(Value::Int(acc))
            },
            _ => None,
        },
        BinOp::And => match (a, b) {
            (Value::Bool(x), Value::Bool(y)) => Some(Value::Bool(x && y)),
            _ => None,
        },
        BinOp::Or => match (a, b) {
            (Value::Bool(x), Value::Bool(y)) => Some(Value::Bool(x || y)),
            _ => None,
        },
        BinOp::BitXor => match (a, b) {
            (Value::Int(x), Value::Int(y)) => Some(Value::Int(x ^ y)),
            (Value::Bool(x), Value::Bool(y)) => Some(Value::Bool(x != y)),
            _ => None,
        },
        BinOp::BitAnd => match (a, b) {
            (Value::Int(x), Value::Int(y)) => Some(Value::Int(x & y)),
            (Value::Bool(x), Value::Bool(y)) => Some(Value::Bool(x && y)),
            _ => None,
        },
        BinOp::BitOr => match (a, b) {
            (Value::Int(x), Value::Int(y)) => Some(Value::Int(x | y)),
            (Value::Bool(x), Value::Bool(y)) => Some(Value::Bool(x || y)),
            _ => None,
        },
        BinOp::Shl => match (a, b) {
            (Value::Int(x), Value::Int(y)) => {
                if y < 0 || y >= 64 {
                    None
                } else {
                    Some(Value::Int(x << y))
                }
            },
            _ => None,
        },
        BinOp::Shr => match (a, b) {
            (Value::Int(x), Value::Int(y)) => {
                if y < 0 || y >= 64 {
                    None
                } else {
                    Some(Value::Int(x >> y))
                }
            },
            _ => None,
        },
        BinOp::Eq => match value_eq(&a, &b) {
            Some(e) => Some(Value::Bool(e)),
            None => None,
        },
        BinOp::Ne => match value_eq(&a, &b) {
            Some(e) => Some(Value::Bool(!e)),
            None => None,
        },
        BinOp::Lt => match (a, b) {
            (Value::Int(x), Value::Int(y)) => Some(Value::Bool(x < y)),
            _ => None,
        },
        BinOp::Le => match (a, b) {
            (Value::Int(x), Value::Int(y)) => Some(Value::Bool(x <= y)),
            _ => None,
        },
        BinOp::Gt => match (a, b) {
            (Value::Int(x), Value::Int(y)) => Some(Value::Bool(x > y)),
            _ => None,
        },
        BinOp::Ge => match (a, b) {
            (Value::Int(x), Value::Int(y)) => Some(Value::Bool(x >= y)),
            _ => None,
        },
    }
}


// ---------------------------------------------------------------------
// Pattern binding.
// ---------------------------------------------------------------------

/// What binding a pattern to a shape does to the local bindings:
/// `None` when the shapes do not match.
pub open spec fn spec_bind(p: Pat, v: ValueV, l: Map<Seq<char>, ValueV>) -> Option<
    Map<Seq<char>, ValueV>,
>
    decreases p,
{
    match p {
        Pat::Wild(_) => Some(l),
        Pat::Ident(q) => Some(l.insert(q.ident@, v)),
        Pat::Tuple(q) => match v {
            ValueV::Tuple(vs) => if vs.len() != q.elems@.len() {
                None
            } else {
                spec_bind_seq(q.elems@, vs, l)
            },
            _ => None,
        },
    }
}

/// Bind a list of patterns to equally many shapes, left to right.
pub open spec fn spec_bind_seq(
    ps: Seq<Pat>,
    vs: Seq<ValueV>,
    l: Map<Seq<char>, ValueV>,
) -> Option<Map<Seq<char>, ValueV>>
    decreases ps,
{
    if ps.len() == 0 {
        Some(l)
    } else {
        match spec_bind(ps[0], vs[0], l) {
            None => None,
            Some(l2) => spec_bind_seq(ps.drop_first(), vs.drop_first(), l2),
        }
    }
}

/// Bind a parameter list to equally many argument shapes, left to right.
pub open spec fn spec_bind_args(
    args: Seq<crate::ast::FnArg>,
    vs: Seq<ValueV>,
    l: Map<Seq<char>, ValueV>,
) -> Option<Map<Seq<char>, ValueV>>
    decreases args,
{
    if args.len() == 0 {
        Some(l)
    } else {
        match spec_bind(args[0].pat, vs[0], l) {
            None => None,
            Some(l2) => spec_bind_args(args.drop_first(), vs.drop_first(), l2),
        }
    }
}

/// Bind a pattern to an evaluated value, exactly as `spec_bind` says;
/// earlier bindings are kept whatever comes back.
pub fn bind_pat(pat: &Pat, v: Value, locals: &mut ValEnv) -> (r: bool)
    ensures
        old(locals).entries@.is_prefix_of(final(locals).entries@),
        r ==> spec_bind(*pat, v@, env_map(*old(locals))) == Some(env_map(*final(locals))),
        !r ==> spec_bind(*pat, v@, env_map(*old(locals))) is None,
    decreases pat,
{
    proof {
        assert(locals.entries@.is_prefix_of(locals.entries@)) by {
            assert(locals.entries@.subrange(0, locals.entries@.len() as int) =~= locals.entries@);
        }
    }
    match pat {
        Pat::Wild(_) => true,
        Pat::Ident(p) => {
            locals.push(p.ident.clone(), v);
            proof {
                assert(old(locals).entries@.is_prefix_of(locals.entries@));
            }
            true
        },
        Pat::Tuple(p) => {
            let mut parts = match v {
                Value::Tuple(vs) => vs,
                _ => {
                    return false;
                },
            };
            let ghost gparts = parts@;
            let ghost gviews = view_list(gparts);
            proof {
                lemma_view_list(gparts);
                assert(v@ == ValueV::Tuple(gviews));
            }
            if parts.len() != p.elems.len() {
                return false;
            }
            let n = p.elems.len();
            let ghost l0 = env_map(*locals);
            proof {
                assert(p.elems@.skip(0) =~= p.elems@);
                assert(gviews.skip(0) =~= gviews);
                assert(parts@ =~= gparts.subrange(0, n as int));
            }
            let mut k: usize = 0;
            while k < n
                invariant
                    *pat matches Pat::Tuple(pp) && pp == *p,
                    n == p.elems@.len(),
                    k <= n,
                    gviews.len() == n,
                    v@ == ValueV::Tuple(gviews),
                    l0 == env_map(*old(locals)),
                    forall|j: int| 0 <= j < gparts.len() ==> #[trigger] gviews[j] == gparts[j]@,
                    gparts.len() == n,
                    parts@ == gparts.subrange(k as int, n as int),
                    old(locals).entries@.is_prefix_of(locals.entries@),
                    spec_bind_seq(p.elems@.skip(k as int), gviews.skip(k as int), env_map(*locals))
                        == spec_bind_seq(p.elems@, gviews, l0),
                decreases n - k,
            {
                let ghost lk = env_map(*locals);
                let ghost entk = locals.entries@;
                let part = parts.remove(0);
                proof {
                    assert(gparts.subrange(k as int, n as int)[0] == gparts[k as int]);
                    assert(part == gparts[k as int]);
                    assert(part@ == gviews[k as int]);
                    assert(parts@ =~= gparts.subrange((k + 1) as int, n as int));
                    assert(p.elems@.skip(k as int)[0] == p.elems@[k as int]);
                    assert(gviews.skip(k as int)[0] == gviews[k as int]);
                    assert(p.elems@.skip(k as int).drop_first() =~= p.elems@.skip((k + 1) as int));
                    assert(gviews.skip(k as int).drop_first() =~= gviews.skip((k + 1) as int));
                    assert(decreases_to!(*pat => pat->Tuple_0.elems@[k as int]));
                }
                let ok = bind_pat(&p.elems[k], part, locals);
                proof {
                    lemma_prefix_trans(old(locals).entries@, entk, locals.entries@);
                }
                if !ok {
                    proof {
                        assert(spec_bind_seq(p.elems@, gviews, l0) is None);
                    }
                    return false;
                }
                k = k + 1;
            }
            proof {
                assert(p.elems@.skip(n as int) =~= Seq::<Pat>::empty());
                assert(gviews.skip(n as int) =~= Seq::<ValueV>::empty());
                assert(spec_bind_seq(p.elems@, gviews, l0) == Some(env_map(*locals)));
            }
            true
        },
    }
}

// ---------------------------------------------------------------------
// Expression evaluation.
// ---------------------------------------------------------------------

/// The first helper function of the given name.
pub open spec fn lookup_fn(fns: Seq<ItemFn>, n: Seq<char>) -> Option<ItemFn>
    decreases fns,
{
    if fns.len() == 0 {
        None
    } else if fns[0].ident@ == n {
        Some(fns[0])
    } else {
        lookup_fn(fns.drop_first(), n)
    }
}

/// What an expression evaluates to against the per-tick store `g` and
/// the block locals `l`; `fuel` bounds the helper-call depth.  `None`
/// stands for a stuck evaluation: an unbound name, mismatched kinds,
/// arithmetic outside the 64-bit range, or exhausted fuel.
pub open spec fn spec_eval(
    e: Expr,
    fns: Seq<ItemFn>,
    g: Map<Seq<char>, ValueV>,
    l: Map<Seq<char>, ValueV>,
    fuel: nat,
) -> Option<ValueV>
    decreases fuel, e,
{
    match e {
        Expr::Lit(le) => match le.lit {
            Lit::Int(i) => Some(ValueV::Int(i.value)),
            Lit::Bool(b) => Some(ValueV::Bool(b.value)),
        },
        Expr::Path(p) => if l.dom().contains(p.path@) {
            Some(l[p.path@])
        } else if g.dom().contains(p.path@) {
            Some(g[p.path@])
        } else {
            None
        },
        Expr::Paren(p) => spec_eval(*p.expr, fns, g, l, fuel),
        Expr::Type(t) => spec_eval(*t.expr, fns, g, l, fuel),
        Expr::Unary(u) => match spec_eval(*u.expr, fns, g, l, fuel) {
            None => None,
            Some(v) => match (u.op, v) {
                (UnOp::Neg, ValueV::Int(x)) => if x == i64::MIN {
                    None
                } else {
                    Some(ValueV::Int((-(x as int)) as i64))
                },
                (UnOp::Not, ValueV::Bool(b)) => Some(ValueV::Bool(!b)),
                (UnOp::Not, ValueV::Int(x)) => Some(ValueV::Int((-1 - (x as int)) as i64)),
                _ => None,
            },
        },
        Expr::Binary(b) => match spec_eval(*b.lhs, fns, g, l, fuel) {
            None => None,
            Some(lv) => if b.op == BinOp::And && lv == ValueV::Bool(false) {
                Some(ValueV::Bool(false))
            } else if b.op == BinOp::Or && lv == ValueV::Bool(true) {
                Some(ValueV::Bool(true))
            } else {
                match spec_eval(*b.rhs, fns, g, l, fuel) {
                    None => None,
                    Some(rv) => spec_binop(b.op, lv, rv),
                }
            },
        },
        Expr::If(i) => match spec_eval(*i.cond, fns, g, l, fuel) {
            None => None,
            Some(c) => match c {
                ValueV::Bool(true) => spec_eval(*i.then_branch, fns, g, l, fuel),
                ValueV::Bool(false) => spec_eval(*i.else_branch, fns, g, l, fuel),
                _ => None,
            },
        },
        Expr::Tuple(t) => match spec_eval_seq(t.elems@, fns, g, l, fuel) {
            None => None,
            Some(vs) => Some(ValueV::Tuple(vs)),
        },
        Expr::List(le) => match spec_eval_seq(le.elems@, fns, g, l, fuel) {
            None => None,
            Some(vs) => Some(ValueV::List(vs)),
        },
        Expr::Index(ix) => match spec_eval(*ix.expr, fns, g, l, fuel) {
            None => None,
            Some(base) => match spec_eval(*ix.index, fns, g, l, fuel) {
                None => None,
                Some(idx) => match (base, idx) {
                    (ValueV::List(vs), ValueV::Int(k)) => if 0 <= k < vs.len() {
                        Some(vs[k as int])
                    } else {
                        None
                    },
                    _ => None,
                },
            },
        },
        Expr::Field(_) => None,
        Expr::Block(b) => spec_block(b.stmts@, fns, g, l, fuel),
        Expr::Call(c) => if fuel == 0 {
            None
        } else {
            match spec_eval_seq(c.args@, fns, g, l, fuel) {
                None => None,
                Some(avs) => match lookup_fn(fns, c.func.path@) {
                    None => None,
                    Some(f) => if f.inputs@.len() != avs.len() {
                        None
                    } else {
                        match spec_bind_args(f.inputs@, avs, Map::empty()) {
                            None => None,
                            Some(l2) => spec_eval(*f.expr, fns, g, l2, (fuel - 1) as nat),
                        }
                    },
                },
            }
        },
    }
}

/// Evaluate a list of expressions, left to right.
pub open spec fn spec_eval_seq(
    es: Seq<Expr>,
    fns: Seq<ItemFn>,
    g: Map<Seq<char>, ValueV>,
    l: Map<Seq<char>, ValueV>,
    fuel: nat,
) -> Option<Seq<ValueV>>
    decreases fuel, es,
{
    if es.len() == 0 {
        Some(Seq::empty())
    } else {
        match spec_eval(es[0], fns, g, l, fuel) {
            None => None,
            Some(v) => match spec_eval_seq(es.drop_first(), fns, g, l, fuel) {
                None => None,
                Some(r) => Some(seq![v] + r),
            },
        }
    }
}

/// Evaluate the statements of a block in order, each `let` extending
/// the locals for the statements after it.  The block's value is the
/// last statement's value when that is an expression, else the unit
/// value; a stuck statement anywhere makes the block stuck.
pub open spec fn spec_block(
    stmts: Seq<Stmt>,
    fns: Seq<ItemFn>,
    g: Map<Seq<char>, ValueV>,
    l: Map<Seq<char>, ValueV>,
    fuel: nat,
) -> Option<ValueV>
    decreases fuel, stmts,
{
    if stmts.len() == 0 {
        Some(unit_value())
    } else {
        match stmts[0] {
            Stmt::Local(s) => match spec_eval(*s.expr, fns, g, l, fuel) {
                None => None,
                Some(v) => match spec_bind(s.pat, v, l) {
                    None => None,
                    Some(l2) => if stmts.len() == 1 {
                        Some(unit_value())
                    } else {
                        spec_block(stmts.drop_first(), fns, g, l2, fuel)
                    },
                },
            },
            Stmt::Expr(e) => match spec_eval(e, fns, g, l, fuel) {
                None => None,
                Some(v) => if stmts.len() == 1 {
                    Some(v)
                } else {
                    spec_block(stmts.drop_first(), fns, g, l, fuel)
                },
            },
        }
    }
}

/// Evaluate an expression against the per-tick store and the block
/// locals, exactly as `spec_eval` says; the locals are as before when
/// the call returns.
#[verifier::rlimit(100)]
pub fn eval(
    e: &Expr,
    fns: &Vec<ItemFn>,
    genv: &ValEnv,
    locals: &mut ValEnv,
    fuel: u64,
) -> (r: Option<Value>)
    ensures
        final(locals).entries@ == old(locals).entries@,
        opt_view(r) == spec_eval(*e, fns@, env_map(*genv), env_map(*old(locals)), fuel as nat),
    decreases fuel, e, 1nat,
{
    let ghost g = env_map(*genv);
    let ghost l0 = env_map(*locals);
    match e {
        Expr::Lit(le) => {
            let res = match &le.lit {
                Lit::Int(i) => Some(Value::Int(i.value)),
                Lit::Bool(b) => Some(Value::Bool(b.value)),
            };
            proof {
                assert(opt_view(res) == spec_eval(*e, fns@, g, l0, fuel as nat));
            }
            res
        },
        Expr::Path(p) => {
            let res = match locals.get(&p.path) {
                Some(v) => Some(value_dup(v)),
                None => match genv.get(&p.path) {
                    Some(v) => Some(value_dup(v)),
                    None => None,
                },
            };
            proof {
                assert(opt_view(res) == spec_eval(*e, fns@, g, l0, fuel as nat));
            }
            res
        },
        Expr::Paren(p) => {
            proof {
                assert(decreases_to!(*e => e->Paren_0.expr));
            }
            eval(&p.expr, fns, genv, locals, fuel)
        },
        Expr::Type(t) => {
            proof {
                assert(decreases_to!(*e => e->Type_0.expr));
            }
            eval(&t.expr, fns, genv, locals, fuel)
        },
        Expr::Unary(u) => {
            proof {
                assert(decreases_to!(*e => e->Unary_0.expr));
            }
            let v = match eval(&u.expr, fns, genv, locals, fuel) {
                Some(v) => v,
                None => {
                    return None;
                },
            };
            let res = match (u.op, v) {
                (UnOp::Neg, Value::Int(x)) => {
                    if x == i64::MIN {
                        None
                    } else {
                        let nv = Value::Int(-x);
                        proof {
                            assert(nv@ == ValueV::Int((-(x as int)) as i64));
                        }
                        Some(nv)
                    }
                },
                (UnOp::Not, Value::Bool(b)) => {
                    let nv = Value::Bool(!b);
                    proof {
                        assert(nv@ == ValueV::Bool(!b));
                    }
                    Some(nv)
                },
                (UnOp::Not, Value::Int(x)) => {
                    // two's-complement bitwise negation
                    let nv = Value::Int(-1 - x);
                    proof {
                        assert(nv@ == ValueV::Int((-1 - (x as int)) as i64));
                    }
                    Some(nv)
                },
                _ => None,
            };
            proof {
                assert(opt_view(res) == spec_eval(*e, fns@, g, l0, fuel as nat));
            }
            res
        },
        Expr::Binary(b) => {
            proof {
                assert(decreases_to!(*e => e->Binary_0.lhs));
                assert(decreases_to!(*e => e->Binary_0.rhs));
            }
            let lv = match eval(&b.lhs, fns, genv, locals, fuel) {
                Some(v) => v,
                None => {
                    return None;
                },
            };
            // the logical operators short-circuit, as in the target language
            match (b.op, &lv) {
                (BinOp::And, Value::Bool(false)) => {
                    return Some(Value::Bool(false));
                },
                (BinOp::Or, Value::Bool(true)) => {
                    return Some(Value::Bool(true));
                },
                _ => {},
            }
            proof {
                assert(!(b.op == BinOp::And && lv@ == ValueV::Bool(false)));
                assert(!(b.op == BinOp::Or && lv@ == ValueV::Bool(true)));
            }
            let rv = match eval(&b.rhs, fns, genv, locals, fuel) {
                Some(v) => v,
                None => {
                    return None;
                },
            };
            let res = eval_binop(b.op, lv, rv);
            proof {
                assert(opt_view(res) == spec_eval(*e, fns@, g, l0, fuel as nat));
            }
            res
        },
        Expr::If(i) => {
            proof {
                assert(decreases_to!(*e => e->If_0.cond));
                assert(decreases_to!(*e => e->If_0.then_branch));
                assert(decreases_to!(*e => e->If_0.else_branch));
            }
            let c = match eval(&i.cond, fns, genv, locals, fuel) {
                Some(v) => v,
                None => {
                    return None;
                },
            };
            let res = match c {
                Value::Bool(true) => eval(&i.then_branch, fns, genv, locals, fuel),
                Value::Bool(false) => eval(&i.else_branch, fns, genv, locals, fuel),
                _ => None,
            };
            proof {
                assert(opt_view(res) == spec_eval(*e, fns@, g, l0, fuel as nat));
            }
            res
        },
        Expr::Tuple(t) => {
            let mut out: Vec<Value> = Vec::new();
            let n = t.elems.len();
            proof {
                assert(t.elems@.skip(0) =~= t.elems@);
                assert(vals_views(out@) =~= Seq::<ValueV>::empty());
                match spec_eval_seq(t.elems@, fns@, g, l0, fuel as nat) {
                    Some(rest) => {
                        assert(vals_views(out@) + rest =~= rest);
                    },
                    None => {},
                }
            }
            let mut i: usize = 0;
            while i < n
                invariant
                    *e matches Expr::Tuple(tt) && tt == *t,
                    n == t.elems@.len(),
                    i <= n,
                    out@.len() == i,
                    locals.entries@ == old(locals).entries@,
                    g == env_map(*genv),
                    l0 == env_map(*old(locals)),
                    match spec_eval_seq(t.elems@.skip(i as int), fns@, g, l0, fuel as nat) {
                        None => spec_eval_seq(t.elems@, fns@, g, l0, fuel as nat) is None,
                        Some(rest) => spec_eval_seq(t.elems@, fns@, g, l0, fuel as nat) == Some(
                            vals_views(out@) + rest,
                        ),
                    },
                decreases n - i,
            {
                proof {
                    assert(decreases_to!(*e => e->Tuple_0.elems@[i as int]));
                    assert(t.elems@.skip(i as int)[0] == t.elems@[i as int]);
                    assert(t.elems@.skip(i as int).drop_first() =~= t.elems@.skip((i + 1) as int));
                }
                let ghost out0 = out@;
                match eval(&t.elems[i], fns, genv, locals, fuel) {
                    Some(v) => {
                        out.push(v);
                        proof {
                            assert(vals_views(out@) =~= vals_views(out0).push(v@));
                            match spec_eval_seq(
                                t.elems@.skip((i + 1) as int),
                                fns@,
                                g,
                                l0,
                                fuel as nat,
                            ) {
                                Some(rest) => {
                                    assert(vals_views(out0) + (seq![v@] + rest) =~= vals_views(
                                        out@,
                                    ) + rest);
                                },
                                None => {},
                            }
                        }
                    },
                    None => {
                        return None;
                    },
                }
                i = i + 1;
            }
            proof {
                assert(t.elems@.skip(n as int) =~= Seq::<Expr>::empty());
            }
            let r = Value::Tuple(out);
            proof {
                lemma_view_list(r->Tuple_0@);
                assert(vals_views(r->Tuple_0@) + Seq::<ValueV>::empty() =~= vals_views(
                    r->Tuple_0@,
                ));
                assert(r@->Tuple_0 =~= vals_views(r->Tuple_0@));
                assert(spec_eval_seq(t.elems@, fns@, g, l0, fuel as nat) == Some(r@->Tuple_0));
                assert(spec_eval(*e, fns@, g, l0, fuel as nat) == Some(r@));
            }
            Some(r)
        },
        Expr::List(le) => {
            let mut out: Vec<Value> = Vec::new();
            let n = le.elems.len();
            proof {
                assert(le.elems@.skip(0) =~= le.elems@);
                assert(vals_views(out@) =~= Seq::<ValueV>::empty());
                match spec_eval_seq(le.elems@, fns@, g, l0, fuel as nat) {
                    Some(rest) => {
                        assert(vals_views(out@) + rest =~= rest);
                    },
                    None => {},
                }
            }
            let mut i: usize = 0;
            while i < n
                invariant
                    *e matches Expr::List(ll) && ll == *le,
                    n == le.elems@.len(),
                    i <= n,
                    out@.len() == i,
                    locals.entries@ == old(locals).entries@,
                    g == env_map(*genv),
                    l0 == env_map(*old(locals)),
                    match spec_eval_seq(le.elems@.skip(i as int), fns@, g, l0, fuel as nat) {
                        None => spec_eval_seq(le.elems@, fns@, g, l0, fuel as nat) is None,
                        Some(rest) => spec_eval_seq(le.elems@, fns@, g, l0, fuel as nat) == Some(
                            vals_views(out@) + rest,
                        ),
                    },
                decreases n - i,
            {
                proof {
                    assert(decreases_to!(*e => e->List_0.elems@[i as int]));
                    assert(le.elems@.skip(i as int)[0] == le.elems@[i as int]);
                    assert(le.elems@.skip(i as int).drop_first() =~= le.elems@.skip(
                        (i + 1) as int,
                    ));
                }
                let ghost out0 = out@;
                match eval(&le.elems[i], fns, genv, locals, fuel) {
                    Some(v) => {
                        out.push(v);
                        proof {
                            assert(vals_views(out@) =~= vals_views(out0).push(v@));
                            match spec_eval_seq(
                                le.elems@.skip((i + 1) as int),
                                fns@,
                                g,
                                l0,
                                fuel as nat,
                            ) {
                                Some(rest) => {
                                    assert(vals_views(out0) + (seq![v@] + rest) =~= vals_views(
                                        out@,
                                    ) + rest);
                                },
                                None => {},
                            }
                        }
                    },
                    None => {
                        return None;
                    },
                }
                i = i + 1;
            }
            proof {
                assert(le.elems@.skip(n as int) =~= Seq::<Expr>::empty());
            }
            let r = Value::List(out);
            proof {
                lemma_view_list(r->List_0@);
                assert(vals_views(r->List_0@) + Seq::<ValueV>::empty() =~= vals_views(
                    r->List_0@,
                ));
                assert(r@->List_0 =~= vals_views(r->List_0@));
                assert(spec_eval_seq(le.elems@, fns@, g, l0, fuel as nat) == Some(r@->List_0));
                assert(spec_eval(*e, fns@, g, l0, fuel as nat) == Some(r@));
            }
            Some(r)
        },
        Expr::Index(ix) => {
            proof {
                assert(decreases_to!(*e => e->Index_0.expr));
                assert(decreases_to!(*e => e->Index_0.index));
            }
            let base = match eval(&ix.expr, fns, genv, locals, fuel) {
                Some(v) => v,
                None => {
                    return None;
                },
            };
            let idx = match eval(&ix.index, fns, genv, locals, fuel) {
                Some(v) => v,
                None => {
                    return None;
                },
            };
            let res = match (base, idx) {
                (Value::List(mut vs), Value::Int(k)) => {
                    proof {
                        lemma_view_list(vs@);
                    }
                    if k < 0 {
                        return None;
                    }
                    if (k as u64) >= (vs.len() as u64) {
                        return None;
                    }
                    Some(vs.remove(k as usize))
                },
                _ => None,
            };
            proof {
                assert(opt_view(res) == spec_eval(*e, fns@, g, l0, fuel as nat));
            }
            res
        },
        Expr::Field(_) => {
            // no struct values exist at runtime
            None
        },
        Expr::Block(b) => {
            let res = eval_block(e, b, fns, genv, locals, fuel);
            proof {
                assert(opt_view(res) == spec_eval(*e, fns@, g, l0, fuel as nat));
            }
            res
        },
        Expr::Call(c) => {
            if fuel == 0 {
                return None;
            }
            // evaluate the arguments left to right
            let mut vals: Vec<Value> = Vec::new();
            let n = c.args.len();
            proof {
                assert(c.args@.skip(0) =~= c.args@);
                assert(vals_views(vals@) =~= Seq::<ValueV>::empty());
                match spec_eval_seq(c.args@, fns@, g, l0, fuel as nat) {
                    Some(rest) => {
                        assert(vals_views(vals@) + rest =~= rest);
                    },
                    None => {},
                }
            }
            let mut i: usize = 0;
            while i < n
                invariant
                    *e matches Expr::Call(cc) && cc == *c,
                    n == c.args@.len(),
                    i <= n,
                    vals@.len() == i,
                    locals.entries@ == old(locals).entries@,
                    g == env_map(*genv),
                    l0 == env_map(*old(locals)),
                    fuel >= 1,
                    match spec_eval_seq(c.args@.skip(i as int), fns@, g, l0, fuel as nat) {
                        None => spec_eval_seq(c.args@, fns@, g, l0, fuel as nat) is None,
                        Some(rest) => spec_eval_seq(c.args@, fns@, g, l0, fuel as nat) == Some(
                            vals_views(vals@) + rest,
                        ),
                    },
                decreases n - i,
            {
                proof {
                    assert(decreases_to!(*e => e->Call_0.args@[i as int]));
                    assert(c.args@.skip(i as int)[0] == c.args@[i as int]);
                    assert(c.args@.skip(i as int).drop_first() =~= c.args@.skip((i + 1) as int));
                }
                let ghost vals0 = vals@;
                match eval(&c.args[i], fns, genv, locals, fuel) {
                    Some(v) => {
                        vals.push(v);
                        proof {
                            assert(vals_views(vals@) =~= vals_views(vals0).push(v@));
                            match spec_eval_seq(
                                c.args@.skip((i + 1) as int),
                                fns@,
                                g,
                                l0,
                                fuel as nat,
                            ) {
                                Some(rest) => {
                                    assert(vals_views(vals0) + (seq![v@] + rest) =~= vals_views(
                                        vals@,
                                    ) + rest);
                                },
                                None => {},
                            }
                        }
                    },
                    None => {
                        return None;
                    },
                }
                i = i + 1;
            }
            let ghost avs = vals_views(vals@);
            proof {
                assert(c.args@.skip(n as int) =~= Seq::<Expr>::empty());
                assert(avs + Seq::<ValueV>::empty() =~= avs);
                assert(spec_eval_seq(c.args@, fns@, g, l0, fuel as nat) == Some(avs));
            }
            // look up the helper function
            let m = fns.len();
            proof {
                assert(fns@.skip(0) =~= fns@);
            }
            let mut j: usize = 0;
            while j < m
                invariant
                    *e matches Expr::Call(cc) && cc == *c,
                    m == fns@.len(),
                    j <= m,
                    fuel >= 1,
                    g == env_map(*genv),
                    l0 == env_map(*old(locals)),
                    locals.entries@ == old(locals).entries@,
                    avs == vals_views(vals@),
                    vals@.len() == c.args@.len(),
                    spec_eval_seq(c.args@, fns@, g, l0, fuel as nat) == Some(avs),
                    lookup_fn(fns@.skip(j as int), c.func.path@) == lookup_fn(fns@, c.func.path@),
                decreases m - j,
            {
                proof {
                    assert(fns@.skip(j as int)[0] == fns@[j as int]);
                    assert(fns@.skip(j as int).drop_first() =~= fns@.skip((j + 1) as int));
                }
                if fns[j].ident.eq(&c.func.path) {
                    proof {
                        assert(lookup_fn(fns@, c.func.path@) == Some(fns@[j as int]));
                    }
                    if fns[j].inputs.len() != vals.len() {
                        return None;
                    }
                    // bind the parameters left to right
                    let mut callee_locals = ValEnv::new();
                    let k0 = fns[j].inputs.len();
                    proof {
                        assert(fns@[j as int].inputs@.skip(0) =~= fns@[j as int].inputs@);
                        assert(avs.skip(0) =~= avs);
                    }
                    let mut k: usize = 0;
                    while k < k0
                        invariant
                            *e matches Expr::Call(cc) && cc == *c,
                            j < fns@.len(),
                            k0 == fns@[j as int].inputs@.len(),
                            k <= k0,
                            fuel >= 1,
                            g == env_map(*genv),
                            l0 == env_map(*old(locals)),
                            locals.entries@ == old(locals).entries@,
                            spec_eval_seq(c.args@, fns@, g, l0, fuel as nat) == Some(avs),
                            lookup_fn(fns@, c.func.path@) == Some(fns@[j as int]),
                            avs.len() == k0,
                            vals@.len() == k0 - k,
                            vals_views(vals@) =~= avs.skip(k as int),
                            spec_bind_args(
                                fns@[j as int].inputs@.skip(k as int),
                                avs.skip(k as int),
                                env_map(callee_locals),
                            ) == spec_bind_args(
                                fns@[j as int].inputs@,
                                avs,
                                Map::<Seq<char>, ValueV>::empty(),
                            ),
                        decreases k0 - k,
                    {
                        let ghost vv = vals@;
                        let part = vals.remove(0);
                        proof {
                            assert(part == vv[0]);
                            assert(vals_views(vv)[0] == part@);
                            assert(part@ == avs.skip(k as int)[0]);
                            assert(vals@ =~= vv.subrange(1, vv.len() as int));
                            assert forall|t: int| 0 <= t < vals@.len() implies vals_views(
                                vals@,
                            )[t] == avs.skip((k + 1) as int)[t] by {
                                assert(vals@[t] == vv[t + 1]);
                                assert(vals_views(vv)[t + 1] == vv[t + 1]@);
                                assert(vals_views(vv)[t + 1] == avs.skip(k as int)[t + 1]);
                                assert(avs.skip(k as int)[t + 1] == avs.skip((k + 1) as int)[t]);
                            }
                            assert(vals_views(vals@) =~= avs.skip((k + 1) as int));
                            assert(fns@[j as int].inputs@.skip(k as int)[0] == fns@[
                                j as int].inputs@[k as int]);
                            assert(fns@[j as int].inputs@.skip(k as int).drop_first() =~= fns@[
                                j as int].inputs@.skip((k + 1) as int));
                            assert(avs.skip(k as int).drop_first() =~= avs.skip((k + 1) as int));
                        }
                        let ok = bind_pat(&fns[j].inputs[k].pat, part, &mut callee_locals);
                        if !ok {
                            proof {
                                assert(spec_bind_args(
                                    fns@[j as int].inputs@,
                                    avs,
                                    Map::<Seq<char>, ValueV>::empty(),
                                ) is None);
                            }
                            return None;
                        }
                        k = k + 1;
                    }
                    proof {
                        assert(fns@[j as int].inputs@.skip(k0 as int)
                            =~= Seq::<crate::ast::FnArg>::empty());
                        assert(avs.skip(k0 as int) =~= Seq::<ValueV>::empty());
                        assert(spec_bind_args(
                            fns@[j as int].inputs@,
                            avs,
                            Map::<Seq<char>, ValueV>::empty(),
                        ) == Some(env_map(callee_locals)));
                    }
                    return eval(&fns[j].expr, fns, genv, &mut callee_locals, fuel - 1);
                }
                j = j + 1;
            }
            proof {
                assert(fns@.skip(m as int) =~= Seq::<ItemFn>::empty());
                assert(lookup_fn(fns@, c.func.path@) is None);
                assert(spec_eval(*e, fns@, g, l0, fuel as nat) is None);
            }
            None
        },
    }
}

/// Evaluate a block expression: the statements in order, each `let`
/// extending the locals, which are restored afterwards.
#[verifier::rlimit(100)]
fn eval_block(
    e: &Expr,
    b: &crate::ast::expressions::ExprBlock,
    fns: &Vec<ItemFn>,
    genv: &ValEnv,
    locals: &mut ValEnv,
    fuel: u64,
) -> (r: Option<Value>)
    requires
        *e matches Expr::Block(bb) && bb == *b,
    ensures
        final(locals).entries@ == old(locals).entries@,
        opt_view(r) == spec_block(
            b.stmts@,
            fns@,
            env_map(*genv),
            env_map(*old(locals)),
            fuel as nat,
        ),
    decreases fuel, e, 0nat,
{
    let ghost g = env_map(*genv);
    let ghost l0 = env_map(*locals);
    let ghost ent0 = locals.entries@;
    let depth = locals.len();
    let n = b.stmts.len();
    if n == 0 {
        let r = Value::Tuple(Vec::new());
        proof {
            assert(r@->Tuple_0 =~= Seq::<ValueV>::empty());
            assert(r@ == unit_value());
        }
        return Some(r);
    }
    proof {
        assert(b.stmts@.skip(0) =~= b.stmts@);
    }
    let mut i: usize = 0;
    while i + 1 < n
        invariant
            *e matches Expr::Block(bb) && bb == *b,
            n == b.stmts@.len(),
            i + 1 <= n,
            depth == ent0.len(),
            ent0 == old(locals).entries@,
            ent0.is_prefix_of(locals.entries@),
            g == env_map(*genv),
            l0 == env_map(*old(locals)),
            spec_block(b.stmts@.skip(i as int), fns@, g, env_map(*locals), fuel as nat)
                == spec_block(b.stmts@, fns@, g, l0, fuel as nat),
        decreases n - i,
    {
        proof {
            assert(b.stmts@.skip(i as int)[0] == b.stmts@[i as int]);
            assert(b.stmts@.skip(i as int).drop_first() =~= b.stmts@.skip((i + 1) as int));
            assert(b.stmts@.skip(i as int).len() >= 2);
        }
        let ghost lcur = env_map(*locals);
        match &b.stmts[i] {
            Stmt::Local(s) => {
                proof {
                    assert(decreases_to!(*e => e->Block_0.stmts@[i as int]->Local_0.expr));
                }
                let v = match eval(&s.expr, fns, genv, locals, fuel) {
                    Some(v) => v,
                    None => {
                        locals.truncate_to(depth, Ghost(ent0));
                        return None;
                    },
                };
                let ok = bind_pat(&s.pat, v, locals);
                if !ok {
                    locals.truncate_to(depth, Ghost(ent0));
                    return None;
                }
            },
            Stmt::Expr(e2) => {
                proof {
                    assert(decreases_to!(*e => e->Block_0.stmts@[i as int]->Expr_0));
                }
                match eval(e2, fns, genv, locals, fuel) {
                    Some(_v) => {},
                    None => {
                        locals.truncate_to(depth, Ghost(ent0));
                        return None;
                    },
                }
            },
        }
        i = i + 1;
    }
    // the last statement decides the block's value
    proof {
        assert(b.stmts@.skip(i as int)[0] == b.stmts@[i as int]);
        assert(b.stmts@.skip(i as int).len() == 1);
    }
    let result: Option<Value> = match &b.stmts[i] {
        Stmt::Local(s) => {
            proof {
                assert(decreases_to!(*e => e->Block_0.stmts@[i as int]->Local_0.expr));
            }
            match eval(&s.expr, fns, genv, locals, fuel) {
                Some(v) => {
                    let ok = bind_pat(&s.pat, v, locals);
                    if ok {
                        let r = Value::Tuple(Vec::new());
                        proof {
                            assert(r@->Tuple_0 =~= Seq::<ValueV>::empty());
                            assert(r@ == unit_value());
                        }
                        Some(r)
                    } else {
                        None
                    }
                },
                None => None,
            }
        },
        Stmt::Expr(e2) => {
            proof {
                assert(decreases_to!(*e => e->Block_0.stmts@[i as int]->Expr_0));
            }
            eval(e2, fns, genv, locals, fuel)
        },
    };
    locals.truncate_to(depth, Ghost(ent0));
    result
}


// ---------------------------------------------------------------------
// The running instance of a compiled program.
// ---------------------------------------------------------------------

/// The default helper-function call depth of the reference runtime.
pub const EVAL_FUEL: u64 = 64;

/// The helper functions among the declarations, in source order.
pub open spec fn fns_of(ds: Seq<ItemDeclaration>) -> Seq<ItemFn>
    decreases ds,
{
    if ds.len() == 0 {
        Seq::empty()
    } else {
        fns_of(ds.drop_last()) + (match ds.last() {
            ItemDeclaration::Fn(f) => seq![f],
            _ => Seq::empty(),
        })
    }
}

/// Seed every register by evaluating its initializer against the
/// argument store alone; `None` as soon as one initializer is stuck.
pub open spec fn seed_cells(
    arrows: Seq<crate::ast::FrpStmtArrow>,
    fns: Seq<ItemFn>,
    g: Map<Seq<char>, ValueV>,
) -> Option<Seq<(Seq<char>, ValueV)>>
    decreases arrows,
{
    if arrows.len() == 0 {
        Some(Seq::empty())
    } else {
        match spec_eval(
            *arrows[0].arrow_expr.expr,
            fns,
            g,
            Map::empty(),
            EVAL_FUEL as nat,
        ) {
            None => None,
            Some(v) => match seed_cells(arrows.drop_first(), fns, g) {
                None => None,
                Some(rest) => Some(seq![(arrows[0].path@, v)] + rest),
            },
        }
    }
}

/// Evaluate the combinational plan in order, each equation extending
/// the per-tick store for the ones after it.
pub open spec fn run_comb(
    deps: Seq<crate::ast::FrpStmtDependency>,
    fns: Seq<ItemFn>,
    g: Map<Seq<char>, ValueV>,
) -> Option<Map<Seq<char>, ValueV>>
    decreases deps,
{
    if deps.len() == 0 {
        Some(g)
    } else {
        match spec_eval(deps[0].expr, fns, g, Map::empty(), EVAL_FUEL as nat) {
            None => None,
            Some(v) => run_comb(deps.drop_first(), fns, g.insert(deps[0].path@, v)),
        }
    }
}

/// Stage every register's next value against one fixed per-tick store:
/// every read sees the pre-tick registers, whatever the update order.
pub open spec fn stage_arrows(
    arrows: Seq<crate::ast::FrpStmtArrow>,
    fns: Seq<ItemFn>,
    g: Map<Seq<char>, ValueV>,
) -> Option<Seq<(Seq<char>, ValueV)>>
    decreases arrows,
{
    if arrows.len() == 0 {
        Some(Seq::empty())
    } else {
        match spec_eval(arrows[0].expr, fns, g, Map::empty(), EVAL_FUEL as nat) {
            None => None,
            Some(v) => match stage_arrows(arrows.drop_first(), fns, g) {
                None => None,
                Some(rest) => Some(seq![(arrows[0].path@, v)] + rest),
            },
        }
    }
}

/// Collect the declared outputs from the finished per-tick store.
pub open spec fn collect_outputs(fields: Seq<Field>, g: Map<Seq<char>, ValueV>) -> Option<
    Seq<(Seq<char>, ValueV)>,
>
    decreases fields,
{
    if fields.len() == 0 {
        Some(Seq::empty())
    } else if g.dom().contains(fields[0].ident@) {
        match collect_outputs(fields.drop_first(), g) {
            None => None,
            Some(rest) => Some(seq![(fields[0].ident@, g[fields[0].ident@])] + rest),
        }
    } else {
        None
    }
}

/// Copy every binding of one store onto the end of another.
fn copy_entries(src: &ValEnv, dst: &mut ValEnv)
    ensures
        env_pairs(*final(dst)) == env_pairs(*old(dst)) + env_pairs(*src),
        env_map(*final(dst)) == pairs_map(env_pairs(*old(dst)) + env_pairs(*src)),
{
    let ghost p0 = env_pairs(*dst);
    let n = src.entries.len();
    proof {
        assert(env_pairs(*dst) =~= p0 + env_pairs(*src).subrange(0, 0));
    }
    let mut i: usize = 0;
    while i < n
        invariant
            n == src.entries@.len(),
            i <= n,
            env_pairs(*dst) == p0 + env_pairs(*src).subrange(0, i as int),
        decreases n - i,
    {
        let ghost pd = env_pairs(*dst);
        let name = src.entries[i].0.clone();
        let v = value_dup(&src.entries[i].1);
        dst.push(name, v);
        proof {
            assert(env_pairs(*dst) =~= pd.push(env_pairs(*src)[i as int]));
            assert(env_pairs(*dst) =~= p0 + env_pairs(*src).subrange(0, (i + 1) as int));
        }
        i = i + 1;
    }
    proof {
        assert(env_pairs(*src).subrange(0, n as int) =~= env_pairs(*src));
    }
}

/// A running instance of a compiled program: its evaluation plan, its
/// helper functions, its argument values, its register storage, and
/// the output of the last tick.
#[derive(Debug)]
pub struct FRP {
    pub body: crate::lrfrp_ir::deps_check::OrderedStmts,
    pub out_fields: Vec<Field>,
    pub fns: Vec<ItemFn>,
    pub args: ValEnv,
    pub cell: ValEnv,
    pub output: ValEnv,
    pub running: bool,
}

impl FRP {
    /// Construct an instance: every register is seeded by evaluating its
    /// initializer against the argument values alone — no input exists
    /// before the first tick.  `None` exactly when an initializer is
    /// stuck; otherwise the storage holds the initializers' values.
    pub fn new(ir: LrfrpIR, args: ValEnv) -> (r: Option<FRP>)
        ensures
            ({
                let sc = seed_cells(ir.body.arrows@, fns_of(ir.declarations@), env_map(args));
                match r {
                    Some(m) => {
                        &&& sc == Some(env_pairs(m.cell))
                        &&& m.body == ir.body
                        &&& m.out_fields@ == ir.output.fields@
                        &&& m.fns@ == fns_of(ir.declarations@)
                        &&& m.args == args
                        &&& !m.running
                        &&& m.output.entries@.len() == 0
                    },
                    None => sc is None,
                }
            }),
    {
        let LrfrpIR { module: _mod_decl, input: _in_decl, output, args: _args_decl, declarations, body } =
            ir;
        // the helper functions, in source order
        let ghost ds0 = declarations@;
        let mut rest = declarations;
        let mut fns_rev: Vec<ItemFn> = Vec::new();
        while rest.len() > 0
            invariant
                fns_of(ds0) == fns_of(rest@) + fns_rev@.reverse(),
            decreases rest@.len(),
        {
            let ghost pre = rest@;
            let d = match rest.pop() {
                Some(d) => d,
                None => {
                    proof {
                        assert(false);
                    }
                    unreached()
                },
            };
            proof {
                assert(rest@ =~= pre.drop_last());
                assert(pre.last() == d);
            }
            match d {
                ItemDeclaration::Fn(f) => {
                    let ghost fr = fns_rev@;
                    fns_rev.push(f);
                    proof {
                        assert(fns_of(pre) =~= fns_of(rest@) + seq![f]);
                        assert(fns_rev@.reverse() =~= seq![f] + fr.reverse());
                        assert(fns_of(rest@) + fns_rev@.reverse() =~= fns_of(pre) + fr.reverse());
                    }
                },
                _ => {
                    proof {
                        assert(fns_of(pre) =~= fns_of(rest@));
                    }
                },
            }
        }
        proof {
            assert(fns_of(rest@) =~= Seq::<ItemFn>::empty());
            assert(fns_of(ds0) =~= fns_rev@.reverse());
        }
        let mut fns: Vec<ItemFn> = Vec::new();
        while fns_rev.len() > 0
            invariant
                fns_of(ds0) == fns@ + fns_rev@.reverse(),
            decreases fns_rev@.len(),
        {
            let ghost pre = fns_rev@;
            let f = match fns_rev.pop() {
                Some(f) => f,
                None => {
                    proof {
                        assert(false);
                    }
                    unreached()
                },
            };
            fns.push(f);
            proof {
                assert(pre.reverse()[0] == f);
                assert(fns_rev@.reverse() =~= pre.reverse().drop_first());
                assert(fns@ + fns_rev@.reverse() =~= fns_of(ds0));
            }
        }
        proof {
            assert(fns@ =~= fns_of(ds0));
        }
        let crate::ast::ItemOut { fields: out_fields } = output;
        // seed the registers from the arguments alone
        let ghost gargs = env_map(args);
        let mut cell = ValEnv::new();
        let n = body.arrows.len();
        proof {
            assert(body.arrows@.skip(0) =~= body.arrows@);
            assert(env_pairs(cell) =~= Seq::<(Seq<char>, ValueV)>::empty());
            match seed_cells(body.arrows@, fns@, gargs) {
                Some(rest) => {
                    assert(env_pairs(cell) + rest =~= rest);
                },
                None => {},
            }
        }
        let mut i: usize = 0;
        while i < n
            invariant
                n == body.arrows@.len(),
                i <= n,
                gargs == env_map(args),
                body == ir.body,
                fns@ == fns_of(ir.declarations@),
                match seed_cells(body.arrows@.skip(i as int), fns@, gargs) {
                    None => seed_cells(body.arrows@, fns@, gargs) is None,
                    Some(rest) => seed_cells(body.arrows@, fns@, gargs) == Some(
                        env_pairs(cell) + rest,
                    ),
                },
            decreases n - i,
        {
            proof {
                assert(body.arrows@.skip(i as int)[0] == body.arrows@[i as int]);
                assert(body.arrows@.skip(i as int).drop_first() =~= body.arrows@.skip(
                    (i + 1) as int,
                ));
            }
            let a = &body.arrows[i];
            let mut locals = ValEnv::new();
            proof {
                assert(env_map(locals) =~= Map::<Seq<char>, ValueV>::empty());
            }
            let ghost cp = env_pairs(cell);
            match eval(&a.arrow_expr.expr, &fns, &args, &mut locals, EVAL_FUEL) {
                Some(v) => {
                    cell.push(a.path.clone(), v);
                    proof {
                        assert(env_pairs(cell) =~= cp.push((a.path@, v@)));
                        match seed_cells(body.arrows@.skip((i + 1) as int), fns@, gargs) {
                            Some(rest) => {
                                assert(cp + (seq![(a.path@, v@)] + rest) =~= env_pairs(cell)
                                    + rest);
                            },
                            None => {},
                        }
                    }
                },
                None => {
                    return None;
                },
            }
            i = i + 1;
        }
        proof {
            assert(body.arrows@.skip(n as int) =~= Seq::<crate::ast::FrpStmtArrow>::empty());
            match seed_cells(body.arrows@, fns@, gargs) {
                Some(rest) => {
                    assert(env_pairs(cell) + Seq::<(Seq<char>, ValueV)>::empty() =~= env_pairs(
                        cell,
                    ));
                },
                None => {},
            }
        }
        Some(FRP { body, out_fields, fns, args, cell, output: ValEnv::new(), running: false })
    }

    /// One tick: evaluate the combinational plan in order against the
    /// arguments, the input sample and the pre-tick register storage;
    /// stage every register's next value against that same store; then
    /// commit all registers at once and collect the declared outputs.
    /// `true` exactly when every expression of the tick evaluates; on a
    /// stuck tick the instance is left unchanged.
    pub fn run(&mut self, input: &ValEnv) -> (r: bool)
        ensures
            !r ==> *final(self) == *old(self),
            ({
                let g0 = pairs_map(
                    env_pairs(old(self).args) + env_pairs(*input) + env_pairs(old(self).cell),
                );
                match run_comb(old(self).body.dependencies@, old(self).fns@, g0) {
                    None => r == false,
                    Some(g1) => match stage_arrows(old(self).body.arrows@, old(self).fns@, g1) {
                        None => r == false,
                        Some(staged) => match collect_outputs(old(self).out_fields@, g1) {
                            None => r == false,
                            Some(outs) => {
                                &&& r == true
                                &&& env_pairs(final(self).cell) == staged
                                &&& env_pairs(final(self).output) == outs
                                &&& final(self).running
                                &&& final(self).body == old(self).body
                                &&& final(self).out_fields == old(self).out_fields
                                &&& final(self).fns == old(self).fns
                                &&& final(self).args == old(self).args
                            },
                        },
                    },
                }
            }),
    {
        let ghost g0 = pairs_map(
            env_pairs(old(self).args) + env_pairs(*input) + env_pairs(old(self).cell),
        );
        // the per-tick store: arguments, inputs, pre-tick registers
        let mut env = ValEnv::new();
        copy_entries(&self.args, &mut env);
        copy_entries(input, &mut env);
        copy_entries(&self.cell, &mut env);
        proof {
            assert(env_pairs(env) =~= env_pairs(old(self).args) + env_pairs(*input) + env_pairs(
                old(self).cell,
            ));
            assert(env_map(env) == g0);
            assert(self.body.dependencies@.skip(0) =~= self.body.dependencies@);
        }
        // combinational signals, in plan order
        let n = self.body.dependencies.len();
        let mut i: usize = 0;
        while i < n
            invariant
                n == self.body.dependencies@.len(),
                i <= n,
                *self == *old(self),
                g0 == pairs_map(
                    env_pairs(old(self).args) + env_pairs(*input) + env_pairs(old(self).cell),
                ),
                run_comb(self.body.dependencies@.skip(i as int), self.fns@, env_map(env))
                    == run_comb(self.body.dependencies@, self.fns@, g0),
            decreases n - i,
        {
            proof {
                assert(self.body.dependencies@.skip(i as int)[0] == self.body.dependencies@[
                    i as int]);
                assert(self.body.dependencies@.skip(i as int).drop_first()
                    =~= self.body.dependencies@.skip((i + 1) as int));
            }
            let d = &self.body.dependencies[i];
            let mut locals = ValEnv::new();
            proof {
                assert(env_map(locals) =~= Map::<Seq<char>, ValueV>::empty());
            }
            match eval(&d.expr, &self.fns, &env, &mut locals, EVAL_FUEL) {
                Some(v) => {
                    env.push(d.path.clone(), v);
                },
                None => {
                    return false;
                },
            }
            i = i + 1;
        }
        let ghost g1 = env_map(env);
        proof {
            assert(self.body.dependencies@.skip(n as int) =~= Seq::<
                crate::ast::FrpStmtDependency,
            >::empty());
            assert(run_comb(self.body.dependencies@, self.fns@, g0) == Some(g1));
            assert(self.body.arrows@.skip(0) =~= self.body.arrows@);
            match stage_arrows(self.body.arrows@, self.fns@, g1) {
                Some(rest) => {
                    assert(Seq::<(Seq<char>, ValueV)>::empty() + rest =~= rest);
                },
                None => {},
            }
        }
        // stage every register's next value before committing any
        let mut staged = ValEnv::new();
        let m = self.body.arrows.len();
        let mut i: usize = 0;
        while i < m
            invariant
                m == self.body.arrows@.len(),
                i <= m,
                *self == *old(self),
                g0 == pairs_map(
                    env_pairs(old(self).args) + env_pairs(*input) + env_pairs(old(self).cell),
                ),
                run_comb(self.body.dependencies@, self.fns@, g0) == Some(g1),
                g1 == env_map(env),
                match stage_arrows(self.body.arrows@.skip(i as int), self.fns@, g1) {
                    None => stage_arrows(self.body.arrows@, self.fns@, g1) is None,
                    Some(rest) => stage_arrows(self.body.arrows@, self.fns@, g1) == Some(
                        env_pairs(staged) + rest,
                    ),
                },
            decreases m - i,
        {
            proof {
                assert(self.body.arrows@.skip(i as int)[0] == self.body.arrows@[i as int]);
                assert(self.body.arrows@.skip(i as int).drop_first() =~= self.body.arrows@.skip(
                    (i + 1) as int,
                ));
            }
            let a = &self.body.arrows[i];
            let mut locals = ValEnv::new();
            proof {
                assert(env_map(locals) =~= Map::<Seq<char>, ValueV>::empty());
            }
            let ghost sp = env_pairs(staged);
            match eval(&a.expr, &self.fns, &env, &mut locals, EVAL_FUEL) {
                Some(v) => {
                    staged.push(a.path.clone(), v);
                    proof {
                        assert(env_pairs(staged) =~= sp.push((a.path@, v@)));
                        match stage_arrows(self.body.arrows@.skip((i + 1) as int), self.fns@, g1) {
                            Some(rest) => {
                                assert(sp + (seq![(a.path@, v@)] + rest) =~= env_pairs(staged)
                                    + rest);
                            },
                            None => {},
                        }
                    }
                },
                None => {
                    return false;
                },
            }
            i = i + 1;
        }
        proof {
            assert(self.body.arrows@.skip(m as int) =~= Seq::<crate::ast::FrpStmtArrow>::empty());
            match stage_arrows(self.body.arrows@, self.fns@, g1) {
                Some(rest) => {
                    assert(env_pairs(staged) + Seq::<(Seq<char>, ValueV)>::empty() =~= env_pairs(
                        staged,
                    ));
                },
                None => {},
            }
            assert(self.out_fields@.skip(0) =~= self.out_fields@);
            match collect_outputs(self.out_fields@, g1) {
                Some(rest) => {
                    assert(Seq::<(Seq<char>, ValueV)>::empty() + rest =~= rest);
                },
                None => {},
            }
        }
        // collect the declared outputs from the per-tick store
        let mut out = ValEnv::new();
        let k = self.out_fields.len();
        let mut i: usize = 0;
        while i < k
            invariant
                k == self.out_fields@.len(),
                i <= k,
                *self == *old(self),
                g0 == pairs_map(
                    env_pairs(old(self).args) + env_pairs(*input) + env_pairs(old(self).cell),
                ),
                run_comb(self.body.dependencies@, self.fns@, g0) == Some(g1),
                stage_arrows(self.body.arrows@, self.fns@, g1) == Some(env_pairs(staged)),
                g1 == env_map(env),
                match collect_outputs(self.out_fields@.skip(i as int), g1) {
                    None => collect_outputs(self.out_fields@, g1) is None,
                    Some(rest) => collect_outputs(self.out_fields@, g1) == Some(
                        env_pairs(out) + rest,
                    ),
                },
            decreases k - i,
        {
            proof {
                assert(self.out_fields@.skip(i as int)[0] == self.out_fields@[i as int]);
                assert(self.out_fields@.skip(i as int).drop_first() =~= self.out_fields@.skip(
                    (i + 1) as int,
                ));
            }
            let f = &self.out_fields[i];
            let ghost op = env_pairs(out);
            match env.get(&f.ident) {
                Some(v) => {
                    let c = value_dup(v);
                    out.push(f.ident.clone(), c);
                    proof {
                        assert(env_pairs(out) =~= op.push((f.ident@, g1[f.ident@])));
                        match collect_outputs(self.out_fields@.skip((i + 1) as int), g1) {
                            Some(rest) => {
                                assert(op + (seq![(f.ident@, g1[f.ident@])] + rest) =~= env_pairs(
                                    out,
                                ) + rest);
                            },
                            None => {},
                        }
                    }
                },
                None => {
                    return false;
                },
            }
            i = i + 1;
        }
        proof {
            assert(self.out_fields@.skip(k as int) =~= Seq::<Field>::empty());
            match collect_outputs(self.out_fields@, g1) {
                Some(rest) => {
                    assert(env_pairs(out) + Seq::<(Seq<char>, ValueV)>::empty() =~= env_pairs(
                        out,
                    ));
                },
                None => {},
            }
        }
        // simultaneous commit
        self.cell = staged;
        self.output = out;
        self.running = true;
        true
    }

    /// The output of the last tick; nothing before the first tick.
    pub fn sample(&self) -> (r: Option<&ValEnv>)
        ensures
            r is Some <==> self.running,
            r matches Some(o) ==> o == &self.output,
    {
        if self.running {
            Some(&self.output)
        } else {
            None
        }
    }
}

} // verus!
