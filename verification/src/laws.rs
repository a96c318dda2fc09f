//! Laws of the classifier, proved over its specification: how large the map
//! can grow, that classification is deterministic, that number-shaped dash
//! tokens stay values, that a bare flag keeps the empty sentinel, that values
//! accumulate in encounter order, and that alias resolution precedes default
//! substitution.

use vstd::prelude::*;
use crate::number::parses_as_number;
use crate::opt::{
    ValueModel, classify, is_flag, run, lookup_pair, with_default, value_first, value_all,
};

verus! {

/// The set of option-name tokens among the first `n` tokens.
pub open spec fn flag_tokens(tokens: Seq<Seq<char>>, n: int) -> Set<Seq<char>>
    decreases n,
{
    if n <= 0 {
        Set::empty()
    } else if is_flag(tokens[n - 1]) {
        flag_tokens(tokens, n - 1).insert(tokens[n - 1])
    } else {
        flag_tokens(tokens, n - 1)
    }
}

proof fn lemma_run_keys(tokens: Seq<Seq<char>>, n: int)
    requires
        0 <= n <= tokens.len(),
    ensures
        flag_tokens(tokens, n).finite(),
        run(tokens, n).1.dom().finite(),
        run(tokens, n).1.dom().subset_of(flag_tokens(tokens, n).insert(Seq::empty())),
        flag_tokens(tokens, n).insert(Seq::empty()).contains(run(tokens, n).0),
        forall|k: Seq<char>|
            flag_tokens(tokens, n).contains(k) ==> is_flag(k) && exists|i: int|
                0 <= i < n && tokens[i] == k,
    decreases n,
{
    if n <= 0 {
    } else {
        lemma_run_keys(tokens, n - 1);
        let st = run(tokens, n - 1);
        let t = tokens[n - 1];
        if t.len() == 0 {
        } else if is_flag(t) {
            assert(run(tokens, n).1.dom().subset_of(st.1.dom().insert(t)));
        } else {
            assert(run(tokens, n).1.dom() =~= st.1.dom().insert(st.0));
        }
    }
}

/// For any token sequence the classifier terminates with a finite map no
/// larger than the number of distinct option-name tokens encountered, plus
/// possibly one empty-string key for leading unflagged values.
pub proof fn lemma_classifier_size(tokens: Seq<Seq<char>>)
    ensures
        classify(tokens).dom().finite(),
        flag_tokens(tokens, tokens.len() as int).finite(),
        classify(tokens).dom().subset_of(
            flag_tokens(tokens, tokens.len() as int).insert(Seq::empty()),
        ),
        classify(tokens).dom().len() <= flag_tokens(tokens, tokens.len() as int).len() + 1,
{
    let n = tokens.len() as int;
    lemma_run_keys(tokens, n);
    vstd::set_lib::lemma_len_subset(
        classify(tokens).dom(),
        flag_tokens(tokens, n).insert(Seq::empty()),
    );
    vstd::set::axiom_set_insert_len(flag_tokens(tokens, n), Seq::empty());
}

/// Classifying the same token sequence twice yields maps with identical key
/// sets and identical values: the classifier is a pure function of its input,
/// with no hidden state.
pub proof fn lemma_classify_deterministic(
    a: Map<Seq<char>, ValueModel>,
    b: Map<Seq<char>, ValueModel>,
    tokens: Seq<Seq<char>>,
)
    requires
        a == classify(tokens),
        b == classify(tokens),
    ensures
        a.dom() == b.dom(),
        forall|k: Seq<char>| a.contains_key(k) ==> a[k] == b[k],
{
}

/// A dash token that reads as a number is always attached as a value: it
/// never becomes an option key, whatever tokens surround it.
pub proof fn lemma_number_token_never_a_key(tokens: Seq<Seq<char>>, t: Seq<char>)
    requires
        t.len() > 0,
        t[0] == '-',
        parses_as_number(t),
    ensures
        !classify(tokens).contains_key(t),
{
    let n = tokens.len() as int;
    lemma_run_keys(tokens, n);
    assert(!is_flag(t));
    if classify(tokens).contains_key(t) {
        assert(flag_tokens(tokens, n).insert(Seq::empty()).contains(t));
        assert(t =~= Seq::<char>::empty() || flag_tokens(tokens, n).contains(t));
        assert(false);
    }
}

proof fn lemma_sentinel_invariant(tokens: Seq<Seq<char>>, t: Seq<char>, n: int)
    requires
        0 <= n <= tokens.len(),
        is_flag(t),
        forall|j: int|
            0 <= j < tokens.len() && (#[trigger] tokens[j]) == t ==> j + 1 == tokens.len()
                || is_flag(tokens[j + 1]),
    ensures
        run(tokens, n).1.contains_key(t) ==> run(tokens, n).1[t] == ValueModel::One(Seq::empty()),
        run(tokens, n).0 == t ==> n >= 1 && tokens[n - 1] == t && run(tokens, n).1.contains_key(t),
    decreases n,
{
    if n > 0 {
        lemma_sentinel_invariant(tokens, t, n - 1);
        let st = run(tokens, n - 1);
        let u = tokens[n - 1];
        if u.len() == 0 || !is_flag(u) {
            // no value or empty token can stand right after an occurrence of t
            if st.0 == t {
                assert(tokens[n - 2] == t);
                assert(is_flag(tokens[n - 1]));
                assert(false);
            }
        }
    }
}

proof fn lemma_contains_monotone(tokens: Seq<Seq<char>>, k: Seq<char>, a: int, b: int)
    requires
        0 <= a <= b <= tokens.len(),
        run(tokens, a).1.contains_key(k),
    ensures
        run(tokens, b).1.contains_key(k),
    decreases b - a,
{
    if a < b {
        lemma_contains_monotone(tokens, k, a, b - 1);
    }
}

/// Boolean-flag law: when no occurrence of flag token `t` is followed by a
/// value token — each stands at the end of the input or immediately before
/// another flag — the option keeps the empty sentinel as its single value:
/// a single-value read of it gives the empty string, and a lookup with a
/// default substitutes that default.
pub proof fn lemma_bare_flag_keeps_sentinel(tokens: Seq<Seq<char>>, i: int)
    requires
        0 <= i < tokens.len(),
        is_flag(tokens[i]),
        forall|j: int|
            0 <= j < tokens.len() && (#[trigger] tokens[j]) == tokens[i] ==> j + 1 == tokens.len()
                || is_flag(tokens[j + 1]),
    ensures
        classify(tokens).contains_key(tokens[i]),
        classify(tokens)[tokens[i]] == ValueModel::One(Seq::empty()),
{
    let n = tokens.len() as int;
    let t = tokens[i];
    lemma_sentinel_invariant(tokens, t, n);
    assert(run(tokens, i + 1).1.contains_key(t));
    lemma_contains_monotone(tokens, t, i + 1, n);
}

/// The values attached to option `k` among the first `n` tokens, in
/// encounter order.
pub open spec fn attached_values(tokens: Seq<Seq<char>>, n: int, k: Seq<char>) -> Seq<Seq<char>>
    decreases n,
{
    if n <= 0 {
        Seq::empty()
    } else {
        let st = run(tokens, n - 1);
        let t = tokens[n - 1];
        let prev = attached_values(tokens, n - 1, k);
        if t.len() == 0 || is_flag(t) {
            prev
        } else if st.0 == k {
            prev.push(t)
        } else {
            prev
        }
    }
}

/// The values an accumulated entry holds: none while the entry is absent or
/// still the empty sentinel, its one value for a real single, the whole list
/// for a promoted option.
pub open spec fn values_of(m: Map<Seq<char>, ValueModel>, k: Seq<char>) -> Seq<Seq<char>> {
    if !m.contains_key(k) {
        Seq::empty()
    } else {
        match m[k] {
            ValueModel::One(s) => if s.len() == 0 {
                Seq::empty()
            } else {
                seq![s]
            },
            ValueModel::Many(l) => l,
        }
    }
}

proof fn lemma_values_in_order_upto(tokens: Seq<Seq<char>>, n: int, k: Seq<char>)
    requires
        0 <= n <= tokens.len(),
    ensures
        values_of(run(tokens, n).1, k) == attached_values(tokens, n, k),
    decreases n,
{
    if n <= 0 {
    } else {
        lemma_values_in_order_upto(tokens, n - 1, k);
        let st = run(tokens, n - 1);
        let t = tokens[n - 1];
        if t.len() == 0 || is_flag(t) {
        } else if st.0 == k {
            if st.1.contains_key(k) {
                match st.1[k] {
                    ValueModel::One(s) => {
                        if s.len() > 0 {
                            assert(seq![s].push(t) =~= seq![s, t]);
                        }
                    },
                    ValueModel::Many(_) => {},
                }
            }
        } else {
        }
    }
}

/// Values accumulate in encounter order: the entry for `k` holds exactly the
/// values attached to `k`, in order.  So once any value was attached, the
/// all-values view is that list — the Nth attached value (counting from one)
/// sits at index N-1 — and a single-value read returns the first attached
/// value, never a later one.
pub proof fn lemma_promotion_order(tokens: Seq<Seq<char>>, k: Seq<char>)
    ensures
        values_of(classify(tokens), k) == attached_values(tokens, tokens.len() as int, k),
        attached_values(tokens, tokens.len() as int, k).len() > 0 ==> {
            &&& classify(tokens).contains_key(k)
            &&& value_all(classify(tokens)[k]) == attached_values(tokens, tokens.len() as int, k)
            &&& value_first(classify(tokens)[k]) == attached_values(
                tokens,
                tokens.len() as int,
                k,
            )[0]
        },
{
    lemma_values_in_order_upto(tokens, tokens.len() as int, k);
    let att = attached_values(tokens, tokens.len() as int, k);
    if att.len() > 0 {
        let m = classify(tokens);
        assert(m.contains_key(k));
        match m[k] {
            ValueModel::One(s) => {
                assert(att == seq![s]);
                assert(value_all(m[k]) == att);
            },
            ValueModel::Many(_) => {},
        }
    }
}

/// Alias resolution precedes default substitution: when the short name is
/// absent and the long name holds a real value, a lookup with a default
/// returns that value, not the default.
pub proof fn lemma_alias_before_default(
    m: Map<Seq<char>, ValueModel>,
    short: Seq<char>,
    long: Seq<char>,
    d: Seq<char>,
)
    requires
        !m.contains_key(short),
        m.contains_key(long),
        m[long] matches ValueModel::One(s) ==> s.len() > 0,
    ensures
        with_default(lookup_pair(m, short, long), d) == m[long],
{
}

} // verus!
