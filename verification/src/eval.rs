use vstd::prelude::*;
use crate::rational::{rat_add, rat_div, rat_mul, rat_pow, rat_sub, Rational};

verus! {

/// A stack-machine operator of the calculator's closed alphabet.
#[derive(Clone, Copy, Debug, PartialEq, Eq, Structural)]
pub enum Operator {
    Add,
    Multiply,
    Subtract,
    Divide,
    Sum,
    Power,
    Clear,
}

/// One token of a parsed line: a number or an operator.
#[derive(Clone, Copy, Debug, PartialEq, Eq, Structural)]
pub enum Item {
    Num(Rational),
    Operator(Operator),
}

/// Why evaluating a line failed. Either kind leaves the caller's previous
/// stack as the one to carry into the next line.
#[derive(Clone, Copy, Debug, PartialEq, Eq, Structural)]
pub enum CalcError {
    NotEnoughItemsInStack,
    MathError,
}

/// A parsed input line: an ordered sequence of tokens.
#[derive(Debug, PartialEq, Default)]
pub struct Line(pub Vec<Item>);

impl View for Line {
    type V = Seq<Item>;

    open spec fn view(&self) -> Seq<Item> {
        self.0@
    }
}

/// The evaluation stack: exact rationals, pushed and popped at the tail.
#[derive(Clone, Debug, PartialEq)]
pub struct Stack(pub Vec<Rational>);

impl View for Stack {
    type V = Seq<Rational>;

    open spec fn view(&self) -> Seq<Rational> {
        self.0@
    }
}

/// Every entry of the stack is in normal form.
pub open spec fn stack_wf(s: Seq<Rational>) -> bool {
    forall|i: int| 0 <= i < s.len() ==> (#[trigger] s[i]).wf()
}

/// A number token is in normal form; an operator token always is.
pub open spec fn item_wf(it: Item) -> bool {
    it matches Item::Num(x) ==> x.wf()
}

/// Every number of the line is in normal form.
pub open spec fn line_wf(items: Seq<Item>) -> bool {
    forall|i: int| 0 <= i < items.len() ==> item_wf(#[trigger] items[i])
}

/// The checked sum of the whole stack, folded left to right from zero.
pub open spec fn sum_of(s: Seq<Rational>) -> Option<Rational>
    decreases s.len(),
{
    if s.len() == 0 {
        Some(Rational { num: 0, den: 1 })
    } else {
        match sum_of(s.drop_last()) {
            Some(p) => rat_add(p, s.last()),
            None => None,
        }
    }
}

/// A binary operator's pop/push contract: the value popped second (pushed
/// earlier) is the left operand, the top of the stack the right one.
pub open spec fn apply_binary(
    stack: Seq<Rational>,
    f: spec_fn(Rational, Rational) -> Option<Rational>,
) -> Result<Seq<Rational>, CalcError> {
    if stack.len() < 2 {
        Err(CalcError::NotEnoughItemsInStack)
    } else {
        let a = stack.last();
        let b = stack[stack.len() - 2];
        match f(b, a) {
            Some(c) => Ok(stack.take(stack.len() - 2).push(c)),
            None => Err(CalcError::MathError),
        }
    }
}

/// The effect of one token on the stack.
pub open spec fn spec_step(stack: Seq<Rational>, item: Item) -> Result<Seq<Rational>, CalcError> {
    match item {
        Item::Num(x) => Ok(stack.push(x)),
        Item::Operator(op) => match op {
            Operator::Add => apply_binary(stack, |b: Rational, a: Rational| rat_add(b, a)),
            Operator::Subtract => apply_binary(stack, |b: Rational, a: Rational| rat_sub(b, a)),
            Operator::Multiply => apply_binary(stack, |b: Rational, a: Rational| rat_mul(b, a)),
            Operator::Divide => apply_binary(stack, |b: Rational, a: Rational| rat_div(b, a)),
            Operator::Power => apply_binary(
                stack,
                |b: Rational, a: Rational|
                    if a.den == 1 && 0 <= a.num && a.num <= u32::MAX {
                        rat_pow(b, a.num as nat)
                    } else {
                        None
                    },
            ),
            Operator::Sum => match sum_of(stack) {
                Some(s) => Ok(seq![s]),
                None => Err(CalcError::MathError),
            },
            Operator::Clear => Ok(Seq::empty()),
        },
    }
}

/// Evaluating a line is a left-to-right fold of `spec_step` over its tokens;
/// the first failing token fails the whole line.
pub open spec fn spec_eval(stack: Seq<Rational>, items: Seq<Item>) -> Result<
    Seq<Rational>,
    CalcError,
>
    decreases items.len(),
{
    if items.len() == 0 {
        Ok(stack)
    } else {
        match spec_step(stack, items[0]) {
            Ok(s2) => spec_eval(s2, items.skip(1)),
            Err(e) => Err(e),
        }
    }
}

proof fn lemma_step_err(
    orig: Seq<Rational>,
    items: Seq<Item>,
    i: int,
    pre: Seq<Rational>,
    e: CalcError,
)
    requires
        0 <= i < items.len(),
        spec_eval(orig, items) == spec_eval(pre, items.skip(i)),
        spec_step(pre, items[i]) == Err::<Seq<Rational>, CalcError>(e),
    ensures
        spec_eval(orig, items) == Err::<Seq<Rational>, CalcError>(e),
{
    assert(items.skip(i)[0] == items[i]);
}

proof fn lemma_step_ok(
    orig: Seq<Rational>,
    items: Seq<Item>,
    i: int,
    pre: Seq<Rational>,
    post: Seq<Rational>,
)
    requires
        0 <= i < items.len(),
        spec_eval(orig, items) == spec_eval(pre, items.skip(i)),
        spec_step(pre, items[i]) == Ok::<Seq<Rational>, CalcError>(post),
    ensures
        spec_eval(orig, items) == spec_eval(post, items.skip(i + 1)),
{
    assert(items.skip(i)[0] == items[i]);
    assert(items.skip(i).skip(1) =~= items.skip(i + 1));
}

proof fn lemma_wf_push(pre: Seq<Rational>, x: Rational)
    requires
        stack_wf(pre),
        x.wf(),
    ensures
        stack_wf(pre.push(x)),
{
    assert forall|j: int| 0 <= j < pre.push(x).len() implies (#[trigger] pre.push(x)[j]).wf() by {
        if j < pre.len() {
            assert(pre.push(x)[j] == pre[j]);
        }
    }
}

proof fn lemma_wf_take_push(pre: Seq<Rational>, k: int, c: Rational)
    requires
        stack_wf(pre),
        0 <= k <= pre.len(),
        c.wf(),
    ensures
        stack_wf(pre.take(k).push(c)),
{
    assert forall|j: int| 0 <= j < pre.take(k).push(c).len() implies (#[trigger] pre.take(k).push(
        c,
    )[j]).wf() by {
        if j < k {
            assert(pre.take(k).push(c)[j] == pre[j]);
        }
    }
}

proof fn lemma_sum_none(s: Seq<Rational>, k: int)
    requires
        0 <= k <= s.len(),
        sum_of(s.take(k)) == None::<Rational>,
    ensures
        sum_of(s) == None::<Rational>,
    decreases s.len() - k,
{
    if k < s.len() {
        assert(s.take(k + 1).drop_last() =~= s.take(k));
        lemma_sum_none(s, k + 1);
    } else {
        assert(s.take(k) =~= s);
    }
}

impl Line {
    /// Folds this line's tokens over `existing_stack`, left to right, and
    /// returns the new stack, or the first failure with nothing of the line
    /// applied to any stack the caller still holds.
    pub fn calc(&self, existing_stack: Stack) -> (r: Result<Stack, CalcError>)
        requires
            line_wf(self@),
            stack_wf(existing_stack@),
        ensures
            match r {
                Ok(s) => spec_eval(existing_stack@, self@) == Ok::<Seq<Rational>, CalcError>(s@)
                    && stack_wf(s@),
                Err(e) => spec_eval(existing_stack@, self@) == Err::<Seq<Rational>, CalcError>(e),
            },
    {
        let ghost orig = existing_stack@;
        let ghost items = self@;
        let mut stack = existing_stack;
        let n = self.0.len();
        let mut i: usize = 0;
        proof {
            assert(items.skip(0) =~= items);
        }
        while i < n
            invariant
                i <= n,
                n == items.len(),
                items == self@,
                orig == existing_stack@,
                line_wf(items),
                stack_wf(stack@),
                spec_eval(orig, items) == spec_eval(stack@, items.skip(i as int)),
            decreases n - i,
        {
            let ghost pre = stack@;
            let item = self.0[i];
            match item {
                Item::Num(x) => {
                    stack.0.push(x);
                    proof {
                        lemma_wf_push(pre, x);
                        lemma_step_ok(orig, items, i as int, pre, stack@);
                    }
                },
                Item::Operator(op) => {
                    match op {
                        Operator::Add => {
                            if stack.0.len() < 2 {
                                proof {
                                    lemma_step_err(
                                        orig,
                                        items,
                                        i as int,
                                        pre,
                                        CalcError::NotEnoughItemsInStack,
                                    );
                                }
                                return Err(CalcError::NotEnoughItemsInStack);
                            }
                            let a = stack.0.pop().unwrap();
                            let b = stack.0.pop().unwrap();
                            proof {
                                assert(pre.drop_last().drop_last() =~= pre.take(
                                    pre.len() - 2,
                                ));
                            }
                            match b.checked_add(a) {
                                Some(c) => {
                                    stack.0.push(c);
                                    proof {
                                        lemma_wf_take_push(pre, pre.len() - 2, c);
                                        lemma_step_ok(orig, items, i as int, pre, stack@);
                                    }
                                },
                                None => {
                                    proof {
                                        lemma_step_err(
                                            orig,
                                            items,
                                            i as int,
                                            pre,
                                            CalcError::MathError,
                                        );
                                    }
                                    return Err(CalcError::MathError);
                                },
                            }
                        },
                        Operator::Subtract => {
                            if stack.0.len() < 2 {
                                proof {
                                    lemma_step_err(
                                        orig,
                                        items,
                                        i as int,
                                        pre,
                                        CalcError::NotEnoughItemsInStack,
                                    );
                                }
                                return Err(CalcError::NotEnoughItemsInStack);
                            }
                            let a = stack.0.pop().unwrap();
                            let b = stack.0.pop().unwrap();
                            proof {
                                assert(pre.drop_last().drop_last() =~= pre.take(
                                    pre.len() - 2,
                                ));
                            }
                            match b.checked_sub(a) {
                                Some(c) => {
                                    stack.0.push(c);
                                    proof {
                                        lemma_wf_take_push(pre, pre.len() - 2, c);
                                        lemma_step_ok(orig, items, i as int, pre, stack@);
                                    }
                                },
                                None => {
                                    proof {
                                        lemma_step_err(
                                            orig,
                                            items,
                                            i as int,
                                            pre,
                                            CalcError::MathError,
                                        );
                                    }
                                    return Err(CalcError::MathError);
                                },
                            }
                        },
                        Operator::Multiply => {
                            if stack.0.len() < 2 {
                                proof {
                                    lemma_step_err(
                                        orig,
                                        items,
                                        i as int,
                                        pre,
                                        CalcError::NotEnoughItemsInStack,
                                    );
                                }
                                return Err(CalcError::NotEnoughItemsInStack);
                            }
                            let a = stack.0.pop().unwrap();
                            let b = stack.0.pop().unwrap();
                            proof {
                                assert(pre.drop_last().drop_last() =~= pre.take(
                                    pre.len() - 2,
                                ));
                            }
                            match b.checked_mul(a) {
                                Some(c) => {
                                    stack.0.push(c);
                                    proof {
                                        lemma_wf_take_push(pre, pre.len() - 2, c);
                                        lemma_step_ok(orig, items, i as int, pre, stack@);
                                    }
                                },
                                None => {
                                    proof {
                                        lemma_step_err(
                                            orig,
                                            items,
                                            i as int,
                                            pre,
                                            CalcError::MathError,
                                        );
                                    }
                                    return Err(CalcError::MathError);
                                },
                            }
                        },
                        Operator::Divide => {
                            if stack.0.len() < 2 {
                                proof {
                                    lemma_step_err(
                                        orig,
                                        items,
                                        i as int,
                                        pre,
                                        CalcError::NotEnoughItemsInStack,
                                    );
                                }
                                return Err(CalcError::NotEnoughItemsInStack);
                            }
                            let a = stack.0.pop().unwrap();
                            let b = stack.0.pop().unwrap();
                            proof {
                                assert(pre.drop_last().drop_last() =~= pre.take(
                                    pre.len() - 2,
                                ));
                            }
                            match b.checked_div(a) {
                                Some(c) => {
                                    stack.0.push(c);
                                    proof {
                                        lemma_wf_take_push(pre, pre.len() - 2, c);
                                        lemma_step_ok(orig, items, i as int, pre, stack@);
                                    }
                                },
                                None => {
                                    proof {
                                        lemma_step_err(
                                            orig,
                                            items,
                                            i as int,
                                            pre,
                                            CalcError::MathError,
                                        );
                                    }
                                    return Err(CalcError::MathError);
                                },
                            }
                        },
                        Operator::Power => {
                            if stack.0.len() < 2 {
                                proof {
                                    lemma_step_err(
                                        orig,
                                        items,
                                        i as int,
                                        pre,
                                        CalcError::NotEnoughItemsInStack,
                                    );
                                }
                                return Err(CalcError::NotEnoughItemsInStack);
                            }
                            let a = stack.0.pop().unwrap();
                            let b = stack.0.pop().unwrap();
                            proof {
                                assert(pre.drop_last().drop_last() =~= pre.take(
                                    pre.len() - 2,
                                ));
                            }
                            if a.den != 1 || a.num < 0 || a.num > u32::MAX as i64 {
                                proof {
                                    lemma_step_err(
                                        orig,
                                        items,
                                        i as int,
                                        pre,
                                        CalcError::MathError,
                                    );
                                }
                                return Err(CalcError::MathError);
                            }
                            match b.checked_pow(a.num as u32) {
                                Some(c) => {
                                    stack.0.push(c);
                                    proof {
                                        lemma_wf_take_push(pre, pre.len() - 2, c);
                                        lemma_step_ok(orig, items, i as int, pre, stack@);
                                    }
                                },
                                None => {
                                    proof {
                                        lemma_step_err(
                                            orig,
                                            items,
                                            i as int,
                                            pre,
                                            CalcError::MathError,
                                        );
                                    }
                                    return Err(CalcError::MathError);
                                },
                            }
                        },
                        Operator::Sum => {
                            let mut acc = Rational::from_integer(0);
                            let len = stack.0.len();
                            let mut j: usize = 0;
                            proof {
                                assert(pre.take(0) =~= Seq::<Rational>::empty());
                            }
                            while j < len
                                invariant
                                    j <= len,
                                    len == pre.len(),
                                    pre == stack@,
                                    stack_wf(pre),
                                    acc.wf(),
                                    sum_of(pre.take(j as int)) == Some(acc),
                                    0 <= i < items.len(),
                                    items == self@,
                                    orig == existing_stack@,
                                    items[i as int] == Item::Operator(Operator::Sum),
                                    spec_eval(orig, items) == spec_eval(
                                        pre,
                                        items.skip(i as int),
                                    ),
                                decreases len - j,
                            {
                                let e = stack.0[j];
                                proof {
                                    assert(pre.take(j as int + 1).drop_last() =~= pre.take(
                                        j as int,
                                    ));
                                    assert(pre.take(j as int + 1).last() == pre[j as int]);
                                }
                                match acc.checked_add(e) {
                                    Some(s2) => {
                                        acc = s2;
                                    },
                                    None => {
                                        proof {
                                            lemma_sum_none(pre, j as int + 1);
                                            lemma_step_err(
                                                orig,
                                                items,
                                                i as int,
                                                pre,
                                                CalcError::MathError,
                                            );
                                        }
                                        return Err(CalcError::MathError);
                                    },
                                }
                                j = j + 1;
                            }
                            stack = Stack(vec![acc]);
                            proof {
                                assert(pre.take(len as int) =~= pre);
                                assert(stack@ =~= seq![acc]);
                                lemma_wf_push(Seq::<Rational>::empty(), acc);
                                assert(stack_wf(stack@));
                                lemma_step_ok(orig, items, i as int, pre, stack@);
                            }
                        },
                        Operator::Clear => {
                            stack = Stack(Vec::new());
                            proof {
                                assert(stack@ =~= Seq::<Rational>::empty());
                                lemma_step_ok(orig, items, i as int, pre, stack@);
                            }
                        },
                    }
                },
            }
            i = i + 1;
        }
        proof {
            assert(items.skip(n as int) =~= Seq::<Item>::empty());
        }
        Ok(stack)
    }
}

impl Line {
    /// Whether every number of the line is in normal form: `calc` asks that
    /// of the line it folds. Lines built by the parser always are.
    pub fn is_normalized(&self) -> (r: bool)
        ensures
            r == line_wf(self@),
    {
        let n = self.0.len();
        let mut i: usize = 0;
        while i < n
            invariant
                i <= n,
                n == self@.len(),
                forall|j: int| 0 <= j < i ==> item_wf(#[trigger] self@[j]),
            decreases n - i,
        {
            match self.0[i] {
                Item::Num(x) => {
                    if !x.is_normalized() {
                        return false;
                    }
                },
                Item::Operator(_) => {},
            }
            i = i + 1;
        }
        true
    }
}

/// `Clear` succeeds on every stack, whatever it holds, and leaves the empty
/// stack.
pub proof fn lemma_clear_never_fails(stack: Seq<Rational>)
    ensures
        spec_eval(stack, seq![Item::Operator(Operator::Clear)]) == Ok::<Seq<Rational>, CalcError>(
            Seq::empty(),
        ),
{
    let items = seq![Item::Operator(Operator::Clear)];
    assert(spec_step(stack, items[0]) == Ok::<Seq<Rational>, CalcError>(
        Seq::<Rational>::empty(),
    ));
    assert(items.skip(1) =~= Seq::<Item>::empty());
    assert(spec_eval(Seq::<Rational>::empty(), items.skip(1)) == Ok::<
        Seq<Rational>,
        CalcError,
    >(Seq::<Rational>::empty()));
}

/// Round trip: with a single value `v` on the stack, `Divide` by a non-zero
/// rational `d` followed by `Multiply` by the same `d` restores the stack
/// `[v]` exactly, whenever the division itself stays representable.
pub proof fn lemma_divide_multiply_round_trip(v: Rational, d: Rational)
    requires
        v.wf(),
        d.wf(),
        d.num != 0,
        rat_div(v, d) is Some,
    ensures
        spec_eval(
            seq![v],
            seq![
                Item::Num(d),
                Item::Operator(Operator::Divide),
                Item::Num(d),
                Item::Operator(Operator::Multiply),
            ],
        ) == Ok::<Seq<Rational>, CalcError>(seq![v]),
{
    crate::rational::lemma_div_mul_round_trip(v, d);
    let q = rat_div(v, d).unwrap();
    let items = seq![
        Item::Num(d),
        Item::Operator(Operator::Divide),
        Item::Num(d),
        Item::Operator(Operator::Multiply),
    ];
    let s0 = seq![v];
    let s1 = s0.push(d);
    let s2 = s1.take(0).push(q);
    let s3 = s2.push(d);
    let s4 = s3.take(0).push(v);
    assert(items.skip(0) =~= items);
    assert(spec_step(s0, items[0]) == Ok::<Seq<Rational>, CalcError>(s1));
    lemma_step_ok(s0, items, 0, s0, s1);
    assert(s1.last() == d && s1[0] == v);
    assert(spec_step(s1, items[1]) == Ok::<Seq<Rational>, CalcError>(s2));
    lemma_step_ok(s0, items, 1, s1, s2);
    assert(spec_step(s2, items[2]) == Ok::<Seq<Rational>, CalcError>(s3));
    lemma_step_ok(s0, items, 2, s2, s3);
    assert(s3.last() == d && s3[0] == q);
    assert(spec_step(s3, items[3]) == Ok::<Seq<Rational>, CalcError>(s4));
    lemma_step_ok(s0, items, 3, s3, s4);
    assert(items.skip(4) =~= Seq::<Item>::empty());
    assert(s4 =~= seq![v]);
}

impl Stack {
    /// The empty session stack.
    pub fn new() -> (s: Stack)
        ensures
            s@ == Seq::<Rational>::empty(),
    {
        Stack(Vec::new())
    }

    /// Whether every entry is in normal form: `calc` asks that of the stack
    /// it is handed. Stacks built by this library always are.
    pub fn is_normalized(&self) -> (r: bool)
        ensures
            r == stack_wf(self@),
    {
        let n = self.0.len();
        let mut i: usize = 0;
        while i < n
            invariant
                i <= n,
                n == self@.len(),
                forall|j: int| 0 <= j < i ==> (#[trigger] self@[j]).wf(),
            decreases n - i,
        {
            if !self.0[i].is_normalized() {
                return false;
            }
            i = i + 1;
        }
        true
    }

    /// The top of the stack, if any.
    pub fn last(&self) -> (r: Option<Rational>)
        ensures
            self@.len() == 0 ==> r is None,
            self@.len() > 0 ==> r == Some(self@.last()),
    {
        if self.0.len() == 0 {
            None
        } else {
            Some(self.0[self.0.len() - 1])
        }
    }
}

} // verus!
