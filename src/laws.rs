//! What the step loop guarantees about ordering and rates.
use crate::actor::{rates_valid, recvs, repeat, sends, step_body, Op};
use vstd::prelude::*;

verus! {

/// Number of occurrences of `x` in `s`.
pub open spec fn count(s: Seq<Op>, x: Op) -> nat
    decreases s.len(),
{
    if s.len() == 0 {
        0
    } else {
        count(s.drop_last(), x) + (if s.last() == x { 1nat } else { 0nat })
    }
}

pub proof fn lemma_count_concat(a: Seq<Op>, b: Seq<Op>, x: Op)
    ensures
        count(a + b, x) == count(a, x) + count(b, x),
    decreases b.len(),
{
    if b.len() == 0 {
        assert(a + b =~= a);
    } else {
        lemma_count_concat(a, b.drop_last(), x);
        assert((a + b).drop_last() =~= a + b.drop_last());
    }
}

proof fn lemma_count_repeat(k: nat, s: Seq<Op>, x: Op)
    ensures
        count(repeat(k, s), x) == k * count(s, x),
    decreases k,
{
    if k > 0 {
        lemma_count_repeat((k - 1) as nat, s, x);
        lemma_count_concat(repeat((k - 1) as nat, s), s, x);
        assert(count(repeat(k, s), x) == (k - 1) * count(s, x) + count(s, x));
        assert((k - 1) * count(s, x) + count(s, x) == k * count(s, x)) by (nonlinear_arith);
    } else {
        assert(k * count(s, x) == 0) by (nonlinear_arith)
            requires k == 0;
    }
}

proof fn lemma_repeat_len(k: nat, s: Seq<Op>)
    ensures
        repeat(k, s).len() == k * s.len(),
    decreases k,
{
    if k > 0 {
        lemma_repeat_len((k - 1) as nat, s);
        assert((k - 1) * s.len() + s.len() == k * s.len()) by (nonlinear_arith);
    } else {
        assert(k * s.len() == 0) by (nonlinear_arith)
            requires k == 0;
    }
}

proof fn lemma_count_recvs(n: nat, x: Op)
    requires
        n <= usize::MAX,
    ensures
        count(recvs(n), x) == (if x matches Op::Recv(i) && i < n { 1nat } else { 0nat }),
    decreases n,
{
    if n > 0 {
        lemma_count_recvs((n - 1) as nat, x);
        assert(recvs(n).drop_last() =~= recvs((n - 1) as nat));
        assert(recvs(n).last() == Op::Recv((n - 1) as usize));
    } else {
        assert(recvs(n).len() == 0);
    }
}

proof fn lemma_count_sends(n: nat, x: Op)
    requires
        n <= usize::MAX,
    ensures
        count(sends(n), x) == (if x matches Op::Send(j) && j < n { 1nat } else { 0nat }),
    decreases n,
{
    if n > 0 {
        lemma_count_sends((n - 1) as nat, x);
        assert(sends(n).drop_last() =~= sends((n - 1) as nat));
        assert(sends(n).last() == Op::Send((n - 1) as usize));
    } else {
        assert(sends(n).len() == 0);
    }
}

/// Receive rounds in one step of an actor with inputs and outputs.
pub open spec fn recv_rounds(ni: nat, no: nat) -> nat {
    if no >= ni { no / ni } else { 1 }
}

/// Send rounds in one step of an actor with inputs and outputs.
pub open spec fn send_rounds(ni: nat, no: nat) -> nat {
    if no >= ni { 1 } else { ni / no }
}

/// Where the sends of a step begin.
pub open spec fn send_start(ni: nat, no: nat, n_inputs: nat) -> nat {
    recv_rounds(ni, no) * (n_inputs + 1)
}

/// The receives and updates of one step.
pub open spec fn step_pre(ni: nat, no: nat, n_inputs: nat, n_outputs: nat) -> Seq<Op> {
    step_body(ni, no, n_inputs, n_outputs).take(send_start(ni, no, n_inputs) as int)
}

/// The sends of one step.
pub open spec fn step_post(ni: nat, no: nat, n_inputs: nat, n_outputs: nat) -> Seq<Op> {
    step_body(ni, no, n_inputs, n_outputs).skip(send_start(ni, no, n_inputs) as int)
}

/// Causality of the step loop. In each step of an actor with inputs and
/// outputs, every receive and update comes before every send, the last
/// operation before the sends is an update, and the step receives
/// `recv_rounds` payloads on each input and sends `send_rounds` on each
/// output, in the proportion of the rates: `recv_rounds * NI == send_rounds * NO`.
/// So the k-th payload sent on an output is produced after the update that
/// follows the `ceil(k * NO / NI)`-th payload received on every input.
pub proof fn lemma_causality(ni: nat, no: nat, n_inputs: nat, n_outputs: nat)
    requires
        rates_valid(ni, no, n_inputs, n_outputs),
        0 < n_inputs <= usize::MAX,
        0 < n_outputs <= usize::MAX,
    ensures
        0 < send_start(ni, no, n_inputs) < step_body(ni, no, n_inputs, n_outputs).len(),
        step_pre(ni, no, n_inputs, n_outputs).last() == Op::Update,
        forall|q: int|
            0 <= q < step_post(ni, no, n_inputs, n_outputs).len() ==> (#[trigger] step_post(
                ni,
                no,
                n_inputs,
                n_outputs,
            )[q]) is Send,
        forall|j: usize| #[trigger] count(step_pre(ni, no, n_inputs, n_outputs), Op::Send(j)) == 0,
        forall|i: usize|
            i < n_inputs ==> #[trigger] count(step_pre(ni, no, n_inputs, n_outputs), Op::Recv(i))
                == recv_rounds(ni, no),
        forall|j: usize|
            j < n_outputs ==> #[trigger] count(step_post(ni, no, n_inputs, n_outputs), Op::Send(j))
                == send_rounds(ni, no),
        count(step_pre(ni, no, n_inputs, n_outputs), Op::Update) == recv_rounds(ni, no),
        recv_rounds(ni, no) * ni == send_rounds(ni, no) * no,
{
    let body = step_body(ni, no, n_inputs, n_outputs);
    let unit = recvs(n_inputs).push(Op::Update);
    let p = send_start(ni, no, n_inputs) as int;
    let r = recv_rounds(ni, no);
    let s = send_rounds(ni, no);
    assert(unit == recvs(n_inputs) + seq![Op::Update]);
    assert forall|x: Op| #[trigger] count(unit, x) == count(recvs(n_inputs), x) + (if x == Op::Update { 1nat } else { 0nat }) by {
        lemma_count_concat(recvs(n_inputs), seq![Op::Update], x);
        assert(seq![Op::Update].drop_last() =~= Seq::<Op>::empty());
        assert(count(Seq::<Op>::empty(), x) == 0);
        assert(count(seq![Op::Update], x) == (if x == Op::Update { 1nat } else { 0nat }));
    }
    if no >= ni {
        let pre0 = repeat(r, unit);
        let post0 = sends(n_outputs);
        lemma_repeat_len(r, unit);
        assert(no == ni * r) by {
            vstd::arithmetic::div_mod::lemma_fundamental_div_mod(no as int, ni as int);
        }
        assert(r > 0) by {
            if r == 0 {
                assert(ni * r == 0) by (nonlinear_arith)
                    requires r == 0;
            }
        }
        assert(r * ni == s * no) by (nonlinear_arith)
            requires no == ni * r, s == 1;
        assert(body == pre0 + post0);
        assert(pre0.len() == p);
        assert(body.take(p) =~= pre0);
        assert(body.skip(p) =~= post0);
        assert(pre0.len() >= unit.len()) by (nonlinear_arith)
            requires pre0.len() == r * unit.len(), r > 0;
        assert(pre0[p - 1] == Op::Update) by {
            assert(pre0 == repeat((r - 1) as nat, unit) + unit);
        }
        assert forall|j: usize| count(pre0, Op::Send(j)) == 0 by {
            lemma_count_repeat(r, unit, Op::Send(j));
            lemma_count_recvs(n_inputs, Op::Send(j));
            let c = count(unit, Op::Send(j));
            assert(c == 0);
            assert(r * c == 0) by (nonlinear_arith)
                requires c == 0;
        }
        assert forall|i: usize| i < n_inputs implies #[trigger] count(pre0, Op::Recv(i)) == r by {
            lemma_count_repeat(r, unit, Op::Recv(i));
            lemma_count_recvs(n_inputs, Op::Recv(i));
            assert(count(unit, Op::Recv(i)) == 1);
        }
        assert forall|j: usize| j < n_outputs implies #[trigger] count(post0, Op::Send(j)) == s by {
            lemma_count_sends(n_outputs, Op::Send(j));
        }
        lemma_count_repeat(r, unit, Op::Update);
        lemma_count_recvs(n_inputs, Op::Update);
        let c = count(unit, Op::Update);
        assert(c == 1);
        assert(r * c == r) by (nonlinear_arith)
            requires c == 1;
        assert(step_pre(ni, no, n_inputs, n_outputs) == pre0);
    } else {
        let pre0 = unit;
        let post0 = repeat(s, sends(n_outputs));
        lemma_repeat_len(s, sends(n_outputs));
        assert(ni == no * s) by {
            vstd::arithmetic::div_mod::lemma_fundamental_div_mod(ni as int, no as int);
        }
        assert(s > 0) by {
            if s == 0 {
                assert(no * s == 0) by (nonlinear_arith)
                    requires s == 0;
            }
        }
        assert(r * ni == s * no) by (nonlinear_arith)
            requires ni == no * s, r == 1;
        assert(body == pre0 + post0);
        assert(p == n_inputs + 1);
        assert(body.take(p) =~= pre0);
        assert(body.skip(p) =~= post0);
        assert(post0.len() > 0) by (nonlinear_arith)
            requires post0.len() == s * n_outputs, s > 0, n_outputs > 0;
        assert forall|q: int| 0 <= q < post0.len() implies (#[trigger] post0[q]) is Send by {
            crate::actor::lemma_step_in_range(ni, no, n_inputs, n_outputs);
            lemma_repeat_sends(s, n_outputs, q);
        }
        assert forall|j: usize| count(pre0, Op::Send(j)) == 0 by {
            lemma_count_recvs(n_inputs, Op::Send(j));
        }
        assert forall|i: usize| i < n_inputs implies #[trigger] count(pre0, Op::Recv(i)) == r by {
            lemma_count_recvs(n_inputs, Op::Recv(i));
        }
        assert forall|j: usize| j < n_outputs implies #[trigger] count(post0, Op::Send(j)) == s by {
            lemma_count_repeat(s, sends(n_outputs), Op::Send(j));
            lemma_count_sends(n_outputs, Op::Send(j));
            let c = count(sends(n_outputs), Op::Send(j));
            assert(c == 1);
            assert(s * c == s) by (nonlinear_arith)
                requires c == 1;
        }
        lemma_count_recvs(n_inputs, Op::Update);
        assert(count(unit, Op::Update) == 1);
        assert(step_pre(ni, no, n_inputs, n_outputs) == pre0);
    }
}


/// Causality across steps. Before the sends of step `m + 1` (counting from
/// one), the actor has received `(m + 1) * recv_rounds` payloads on each
/// input and has sent `m * send_rounds` on each output; the sends of that
/// step are the next `send_rounds`. So every one of its first
/// `(m + 1) * send_rounds` sends on an output comes after `(m + 1) *
/// recv_rounds` receives on every input, and `(m + 1) * recv_rounds * NI ==
/// (m + 1) * send_rounds * NO`.
pub proof fn lemma_causality_across_steps(ni: nat, no: nat, n_inputs: nat, n_outputs: nat, m: nat)
    requires
        rates_valid(ni, no, n_inputs, n_outputs),
        0 < n_inputs <= usize::MAX,
        0 < n_outputs <= usize::MAX,
    ensures
        forall|i: usize|
            i < n_inputs ==> #[trigger] count(
                repeat(m, step_body(ni, no, n_inputs, n_outputs)) + step_pre(ni, no, n_inputs, n_outputs),
                Op::Recv(i),
            ) == (m + 1) * recv_rounds(ni, no),
        forall|j: usize|
            j < n_outputs ==> #[trigger] count(
                repeat(m, step_body(ni, no, n_inputs, n_outputs)) + step_pre(ni, no, n_inputs, n_outputs),
                Op::Send(j),
            ) == m * send_rounds(ni, no),
        ((m + 1) * recv_rounds(ni, no)) * ni == ((m + 1) * send_rounds(ni, no)) * no,
{
    let body = step_body(ni, no, n_inputs, n_outputs);
    let pre = step_pre(ni, no, n_inputs, n_outputs);
    let post = step_post(ni, no, n_inputs, n_outputs);
    let r = recv_rounds(ni, no);
    let s = send_rounds(ni, no);
    lemma_causality(ni, no, n_inputs, n_outputs);
    assert(body == pre + post);
    assert forall|i: usize| i < n_inputs implies #[trigger] count(repeat(m, body) + pre, Op::Recv(i)) == (m + 1) * r by {
        lemma_count_concat(repeat(m, body), pre, Op::Recv(i));
        lemma_count_repeat(m, body, Op::Recv(i));
        lemma_count_concat(pre, post, Op::Recv(i));
        assert(count(post, Op::Recv(i)) == 0) by {
            lemma_no_recv_in_sends(post, i);
        }
        assert(m * r + r == (m + 1) * r) by (nonlinear_arith);
    }
    assert forall|j: usize| j < n_outputs implies #[trigger] count(repeat(m, body) + pre, Op::Send(j)) == m * s by {
        lemma_count_concat(repeat(m, body), pre, Op::Send(j));
        lemma_count_repeat(m, body, Op::Send(j));
        lemma_count_concat(pre, post, Op::Send(j));
    }
    assert(((m + 1) * r) * ni == ((m + 1) * s) * no) by (nonlinear_arith)
        requires r * ni == s * no;
}

proof fn lemma_no_recv_in_sends(s: Seq<Op>, i: usize)
    requires
        forall|q: int| 0 <= q < s.len() ==> (#[trigger] s[q]) is Send,
    ensures
        count(s, Op::Recv(i)) == 0,
    decreases s.len(),
{
    if s.len() > 0 {
        assert forall|q: int| 0 <= q < s.drop_last().len() implies (#[trigger] s.drop_last()[q]) is Send by {
            assert(s.drop_last()[q] == s[q]);
        }
        lemma_no_recv_in_sends(s.drop_last(), i);
        assert(s.last() is Send);
    }
}

/// State of a one-input, one-output reference client: the last payload
/// received and the value it holds for output.
pub struct Held {
    pub last: int,
    pub value: int,
}

/// Runs `ops` with a reference client fed from `xs`. On receive it keeps the
/// payload; on update it adds it to the held value when `summing`, or
/// replaces the held value by it otherwise; on send it emits the held value,
/// and starts over from zero when `summing`. Returns what was emitted, what
/// is left of `xs`, and the final state.
pub open spec fn run_ops(ops: Seq<Op>, xs: Seq<int>, st: Held, summing: bool) -> (Seq<int>, Seq<int>, Held)
    decreases ops.len(),
{
    if ops.len() == 0 {
        (Seq::empty(), xs, st)
    } else {
        let rest = ops.drop_first();
        match ops[0] {
            Op::Recv(_) => if xs.len() == 0 {
                (Seq::empty(), xs, st)
            } else {
                run_ops(rest, xs.drop_first(), Held { last: xs[0], value: st.value }, summing)
            },
            Op::Update => run_ops(
                rest,
                xs,
                Held { last: st.last, value: if summing { st.value + st.last } else { st.last } },
                summing,
            ),
            Op::Send(_) => {
                let r = run_ops(
                    rest,
                    xs,
                    Held { last: st.last, value: if summing { 0 } else { st.value } },
                    summing,
                );
                (seq![st.value].add(r.0), r.1, r.2)
            },
        }
    }
}

/// Sum of a sequence.
pub open spec fn sum(s: Seq<int>) -> int
    decreases s.len(),
{
    if s.len() == 0 {
        0
    } else {
        sum(s.drop_last()) + s.last()
    }
}

/// Sums of consecutive blocks of `k` payloads.
pub open spec fn block_sums(xs: Seq<int>, k: nat) -> Seq<int> {
    Seq::new(xs.len() / k, |b: int| sum(xs.subrange(b * k, b * k + k)))
}

/// Each payload repeated `k` times in succession.
pub open spec fn repeat_each(xs: Seq<int>, k: nat) -> Seq<int> {
    Seq::new(xs.len() * k, |t: int| xs[t / (k as int)])
}

/// Running `a` then `b` is running `a + b`, provided `a` does not run dry.
proof fn lemma_run_concat(a: Seq<Op>, b: Seq<Op>, xs: Seq<int>, st: Held, summing: bool)
    requires
        count_recvs(a) <= xs.len(),
    ensures
        ({
            let ra = run_ops(a, xs, st, summing);
            let rb = run_ops(b, ra.1, ra.2, summing);
            run_ops(a + b, xs, st, summing) == (ra.0 + rb.0, rb.1, rb.2)
        }),
    decreases a.len(),
{
    if a.len() == 0 {
        assert(a + b =~= b);
        assert(Seq::<int>::empty() + run_ops(b, xs, st, summing).0 =~= run_ops(b, xs, st, summing).0);
    } else {
        assert((a + b).drop_first() =~= a.drop_first() + b);
        assert((a + b)[0] == a[0]);
        lemma_count_recvs_first(a);
        match a[0] {
            Op::Recv(_) => {
                lemma_run_concat(a.drop_first(), b, xs.drop_first(), Held { last: xs[0], value: st.value }, summing);
            },
            Op::Update => {
                lemma_run_concat(
                    a.drop_first(),
                    b,
                    xs,
                    Held { last: st.last, value: if summing { st.value + st.last } else { st.last } },
                    summing,
                );
            },
            Op::Send(_) => {
                let st2 = Held { last: st.last, value: if summing { 0 } else { st.value } };
                lemma_run_concat(a.drop_first(), b, xs, st2, summing);
                let ra = run_ops(a.drop_first(), xs, st2, summing);
                let rb = run_ops(b, ra.1, ra.2, summing);
                assert(seq![st.value] + (ra.0 + rb.0) =~= (seq![st.value] + ra.0) + rb.0);
            },
        }
    }
}

/// Number of receives in `s`.
pub open spec fn count_recvs(s: Seq<Op>) -> nat
    decreases s.len(),
{
    if s.len() == 0 {
        0
    } else {
        count_recvs(s.drop_first()) + (if s[0] is Recv { 1nat } else { 0nat })
    }
}

proof fn lemma_count_recvs_first(s: Seq<Op>)
    requires
        s.len() > 0,
    ensures
        count_recvs(s) == count_recvs(s.drop_first()) + (if s[0] is Recv { 1nat } else { 0nat }),
{
}

proof fn lemma_count_recvs_concat(a: Seq<Op>, b: Seq<Op>)
    ensures
        count_recvs(a + b) == count_recvs(a) + count_recvs(b),
    decreases a.len(),
{
    if a.len() == 0 {
        assert(a + b =~= b);
    } else {
        lemma_count_recvs_concat(a.drop_first(), b);
        assert((a + b).drop_first() =~= a.drop_first() + b);
    }
}


spec fn acc_unit() -> Seq<Op> {
    seq![Op::Recv(0), Op::Update]
}

proof fn lemma_acc_rounds(j: nat, xs: Seq<int>, st: Held)
    requires
        xs.len() >= j,
    ensures
        count_recvs(repeat(j, acc_unit())) == j,
        run_ops(repeat(j, acc_unit()), xs, st, true).0 == Seq::<int>::empty(),
        run_ops(repeat(j, acc_unit()), xs, st, true).1 == xs.skip(j as int),
        run_ops(repeat(j, acc_unit()), xs, st, true).2.value == st.value + sum(xs.take(j as int)),
    decreases j,
{
    reveal_with_fuel(run_ops, 3);
    reveal_with_fuel(count_recvs, 3);
    let u = acc_unit();
    assert(count_recvs(u) == 1) by {
        assert(u.drop_first().drop_first().len() == 0);
    }
    if j == 0 {
        assert(xs.skip(0) =~= xs);
        assert(xs.take(0) =~= Seq::<int>::empty());
    } else {
        let prev = repeat((j - 1) as nat, u);
        lemma_acc_rounds((j - 1) as nat, xs, st);
        lemma_count_recvs_concat(prev, u);
        lemma_run_concat(prev, u, xs, st, true);
        let ra = run_ops(prev, xs, st, true);
        let rest = xs.skip(j - 1);
        assert(rest[0] == xs[j - 1]);
        assert(u.drop_first().drop_first().len() == 0);
        assert(rest.drop_first() =~= xs.skip(j as int));
        assert(xs.take(j as int).drop_last() =~= xs.take(j - 1));
        assert(Seq::<int>::empty() + Seq::<int>::empty() =~= Seq::<int>::empty());
    }
}

proof fn lemma_decimation_steps(k: nat, m: nat, xs: Seq<int>, last: int)
    requires
        0 < k <= usize::MAX,
        xs.len() >= m * k,
    ensures
        count_recvs(repeat(m, step_body(1, k, 1, 1))) == m * k,
        run_ops(repeat(m, step_body(1, k, 1, 1)), xs, Held { last, value: 0 }, true).0 == Seq::new(
            m,
            |b: int| sum(xs.subrange(b * k, b * k + k)),
        ),
        run_ops(repeat(m, step_body(1, k, 1, 1)), xs, Held { last, value: 0 }, true).1 == xs.skip(
            (m * k) as int,
        ),
        run_ops(repeat(m, step_body(1, k, 1, 1)), xs, Held { last, value: 0 }, true).2.value == 0,
    decreases m,
{
    reveal_with_fuel(run_ops, 2);
    reveal_with_fuel(count_recvs, 2);
    let body = step_body(1, k, 1, 1);
    let u = acc_unit();
    assert(recvs(1).push(Op::Update) =~= u);
    assert(sends(1) =~= seq![Op::Send(0)]);
    assert(body == repeat(k, u) + seq![Op::Send(0)]);
    let st0 = Held { last, value: 0 };
    if m == 0 {
        assert(xs.skip(0) =~= xs);
        assert(0 * k == 0) by (nonlinear_arith);
        assert(Seq::new(m, |b: int| sum(xs.subrange(b * k, b * k + k))) =~= Seq::<int>::empty());
    } else {
        let prev = repeat((m - 1) as nat, body);
        assert((m - 1) * k + k == m * k) by (nonlinear_arith);
        assert((m - 1) * k <= m * k) by (nonlinear_arith) requires k > 0, m > 0;
        lemma_decimation_steps(k, (m - 1) as nat, xs, last);
        let ra = run_ops(prev, xs, st0, true);
        let rest = xs.skip(((m - 1) * k) as int);
        let sa = ra.2;
        lemma_acc_rounds(k, rest, sa);
        assert(count_recvs(seq![Op::Send(0)]) == 0) by {
            assert(seq![Op::Send(0)].drop_first().len() == 0);
        }
        lemma_count_recvs_concat(repeat(k, u), seq![Op::Send(0)]);
        lemma_count_recvs_concat(prev, body);
        lemma_run_concat(prev, body, xs, st0, true);
        lemma_run_concat(repeat(k, u), seq![Op::Send(0)], rest, sa, true);
        let r1 = run_ops(repeat(k, u), rest, sa, true);
        let r2 = run_ops(seq![Op::Send(0)], r1.1, r1.2, true);
        assert(seq![Op::Send(0)].drop_first().len() == 0);
        assert(r2.0 =~= seq![sum(rest.take(k as int))]);
        assert(rest.take(k as int) =~= xs.subrange((m - 1) * k, (m - 1) * k + k));
        assert(rest.skip(k as int) =~= xs.skip((m * k) as int));
        let outs = Seq::new(m, |b: int| sum(xs.subrange(b * k, b * k + k)));
        let outs0 = Seq::new((m - 1) as nat, |b: int| sum(xs.subrange(b * k, b * k + k)));
        assert(outs0 + (r1.0 + r2.0) =~= outs);
    }
}

/// Decimation arithmetic: an actor with inputs rate 1 and outputs rate `k`,
/// one input and one output, whose client adds up what it receives and
/// starts over after each send, emits over `m` steps the sums of the `m`
/// consecutive blocks of `k` payloads it received.
pub proof fn lemma_decimation_sums(k: nat, m: nat, xs: Seq<int>)
    requires
        0 < k <= usize::MAX,
        xs.len() == m * k,
    ensures
        run_ops(repeat(m, step_body(1, k, 1, 1)), xs, Held { last: 0, value: 0 }, true).0 == block_sums(xs, k),
{
    lemma_decimation_steps(k, m, xs, 0);
    assert(xs.len() / k == m) by {
        vstd::arithmetic::div_mod::lemma_fundamental_div_mod_converse(xs.len() as int, k as int, m as int, 0);
    }
    assert(block_sums(xs, k) =~= Seq::new(m, |b: int| sum(xs.subrange(b * k, b * k + k))));
}


proof fn lemma_hold_sends(j: nat, xs: Seq<int>, st: Held)
    ensures
        count_recvs(repeat(j, seq![Op::Send(0)])) == 0,
        run_ops(repeat(j, seq![Op::Send(0)]), xs, st, false) == (Seq::new(j, |t: int| st.value), xs, st),
    decreases j,
{
    reveal_with_fuel(run_ops, 2);
    reveal_with_fuel(count_recvs, 2);
    let u = seq![Op::Send(0)];
    assert(u.drop_first().len() == 0);
    if j == 0 {
        assert(Seq::new(j, |t: int| st.value) =~= Seq::<int>::empty());
    } else {
        let prev = repeat((j - 1) as nat, u);
        lemma_hold_sends((j - 1) as nat, xs, st);
        lemma_count_recvs_concat(prev, u);
        lemma_run_concat(prev, u, xs, st, false);
        assert(Seq::new((j - 1) as nat, |t: int| st.value) + seq![st.value] =~= Seq::new(j, |t: int| st.value));
        assert(run_ops(u, xs, st, false).0 =~= seq![st.value]);
    }
}

proof fn lemma_upsampling_steps(k: nat, m: nat, xs: Seq<int>, st: Held)
    requires
        0 < k <= usize::MAX,
        xs.len() >= m,
    ensures
        count_recvs(repeat(m, step_body(k, 1, 1, 1))) == m,
        run_ops(repeat(m, step_body(k, 1, 1, 1)), xs, st, false).0 == Seq::new(
            m * k,
            |t: int| xs[t / (k as int)],
        ),
        run_ops(repeat(m, step_body(k, 1, 1, 1)), xs, st, false).1 == xs.skip(m as int),
    decreases m,
{
    reveal_with_fuel(run_ops, 3);
    reveal_with_fuel(count_recvs, 3);
    let body = step_body(k, 1, 1, 1);
    let u = acc_unit();
    let sends1 = seq![Op::Send(0)];
    assert(recvs(1).push(Op::Update) =~= u);
    assert(sends(1) =~= sends1);
    assert(body =~= u + repeat(k, sends1)) by {
        if k == 1 {
            reveal_with_fuel(repeat, 2);
            assert(repeat(1, u) =~= u);
            assert(repeat(1, sends1) =~= sends1);
        }
    }
    assert(count_recvs(u) == 1) by {
        assert(u.drop_first().drop_first().len() == 0);
    }
    if m == 0 {
        assert(xs.skip(0) =~= xs);
        assert(m * k == 0) by (nonlinear_arith) requires m == 0;
        assert(Seq::new(m * k, |t: int| xs[t / (k as int)]) =~= Seq::<int>::empty());
    } else {
        let prev = repeat((m - 1) as nat, body);
        lemma_upsampling_steps(k, (m - 1) as nat, xs, st);
        let ra = run_ops(prev, xs, st, false);
        let rest = xs.skip(m - 1);
        lemma_hold_sends(k, rest.drop_first(), Held { last: rest[0], value: rest[0] });
        lemma_count_recvs_concat(u, repeat(k, sends1));
        lemma_count_recvs_concat(prev, body);
        lemma_run_concat(prev, body, xs, st, false);
        lemma_run_concat(u, repeat(k, sends1), rest, ra.2, false);
        assert(u.drop_first().drop_first().len() == 0);
        let r1 = run_ops(u, rest, ra.2, false);
        assert(r1.0 =~= Seq::<int>::empty());
        assert(r1.2 == Held { last: rest[0], value: rest[0] });
        assert(rest[0] == xs[m - 1]);
        assert(rest.drop_first() =~= xs.skip(m as int));
        let r2 = run_ops(repeat(k, sends1), r1.1, r1.2, false);
        let f = |t: int| xs[t / (k as int)];
        let n0 = ((m - 1) * k) as nat;
        assert((m - 1) * k + k == m * k) by (nonlinear_arith);
        let whole = Seq::new(m * k, f);
        assert(Seq::new(n0, f) + (r1.0 + r2.0) =~= whole) by {
            assert forall|t: int| n0 <= t < m * k implies #[trigger] whole[t] == xs[m - 1] by {
                vstd::arithmetic::div_mod::lemma_fundamental_div_mod_converse(t, k as int, m - 1, t - n0);
            }
            assert(r1.0 + r2.0 =~= r2.0);
        }
    }
}

/// Upsampling arithmetic: an actor with inputs rate `k` and outputs rate 1,
/// one input and one output, whose client holds the last payload it
/// received, emits each received payload `k` times in succession.
pub proof fn lemma_upsampling_holds(k: nat, xs: Seq<int>)
    requires
        0 < k <= usize::MAX,
    ensures
        run_ops(repeat(xs.len(), step_body(k, 1, 1, 1)), xs, Held { last: 0, value: 0 }, false).0
            == repeat_each(xs, k),
{
    lemma_upsampling_steps(k, xs.len(), xs, Held { last: 0, value: 0 });
}

proof fn lemma_repeat_sends(k: nat, n: nat, q: int)
    requires
        0 <= q < repeat(k, sends(n)).len(),
    ensures
        repeat(k, sends(n))[q] is Send,
    decreases k,
{
    if k > 0 {
        let r = repeat((k - 1) as nat, sends(n));
        if q < r.len() {
            lemma_repeat_sends((k - 1) as nat, n, q);
        }
    }
}

} // verus!
