//! The option map: one left-to-right pass groups a token sequence into named
//! options and their values, and a small facade answers lookups over the
//! resulting map, optionally substituting a default.

use vstd::prelude::*;
use vstd::string::StringExecFns;
use crate::number::{parses_as_number, parse_probe, chars_of};

verus! {

/// Spec-level model of an option's accumulated value: one text value (the
/// empty string standing for "no value yet"), or the ordered list of all
/// values seen for that option, two or more of them.
pub enum ValueModel {
    Many(Seq<Seq<char>>),
    One(Seq<char>),
}

/// An option's accumulated value: a single text value, or the ordered list
/// of all values seen for that option.
pub enum OptValue {
    Many(Vec<String>),
    One(String),
}

impl View for OptValue {
    type V = ValueModel;

    open spec fn view(&self) -> ValueModel {
        match self {
            OptValue::Many(l) => ValueModel::Many(l.deep_view()),
            OptValue::One(s) => ValueModel::One(s.view()),
        }
    }
}

/// Shape of every value the classifier builds: a list form always holds at
/// least two values and its first value is non-empty, since a list only ever
/// arises by promoting a non-empty single value.
pub open spec fn value_wf(v: ValueModel) -> bool {
    match v {
        ValueModel::Many(l) => l.len() >= 2 && l[0].len() > 0,
        ValueModel::One(_) => true,
    }
}

/// The one value of a single, or the first of a list.
pub open spec fn value_first(v: ValueModel) -> Seq<char> {
    match v {
        ValueModel::Many(l) => l[0],
        ValueModel::One(s) => s,
    }
}

/// All values, in encounter order; a single value becomes a list of one.
pub open spec fn value_all(v: ValueModel) -> Seq<Seq<char>> {
    match v {
        ValueModel::Many(l) => l,
        ValueModel::One(s) => seq![s],
    }
}

fn clone_string_vec(l: &Vec<String>) -> (r: Vec<String>)
    ensures
        r.deep_view() == l.deep_view(),
{
    let mut r: Vec<String> = Vec::new();
    let n = l.len();
    for i in 0..n
        invariant
            n == l@.len(),
            r@.len() == i,
            forall|k: int| 0 <= k < i ==> (#[trigger] r@[k])@ == l@[k]@,
    {
        r.push(l[i].clone());
    }
    proof {
        assert forall|k: int| 0 <= k < n implies r.deep_view()[k] == l.deep_view()[k] by {
            assert(r@[k]@ == l@[k]@);
        }
        assert(r.deep_view() =~= l.deep_view());
    }
    r
}

impl Clone for OptValue {
    fn clone(&self) -> (res: Self)
        ensures
            res@ == self@,
    {
        match self {
            OptValue::Many(l) => OptValue::Many(clone_string_vec(l)),
            OptValue::One(s) => OptValue::One(s.clone()),
        }
    }
}

impl OptValue {
    /// The single value, or the first value of a promoted option: never a
    /// later one.
    pub fn one(&self) -> (r: String)
        requires
            self@ matches ValueModel::Many(l) ==> l.len() >= 1,
        ensures
            r@ == value_first(self@),
    {
        match self {
            OptValue::One(s) => s.clone(),
            OptValue::Many(m) => m[0].clone(),
        }
    }

    /// All values in encounter order; a single value comes back as a vector
    /// of one.
    pub fn many(&self) -> (r: Vec<String>)
        ensures
            r.deep_view() == value_all(self@),
    {
        match self {
            OptValue::One(s) => {
                let mut r: Vec<String> = Vec::new();
                r.push(s.clone());
                proof {
                    assert(r@[0]@ == s@);
                    assert(r.deep_view() =~= seq![s@]);
                }
                r
            },
            OptValue::Many(m) => clone_string_vec(m),
        }
    }

    /// Folds one more value into an accumulated value: a sentinel single is
    /// replaced, a real single is promoted to a list of two, a list grows at
    /// the end.
    fn attach_value(self, t: String) -> (r: OptValue)
        ensures
            r@ == attach_to_value(self@, t@),
    {
        match self {
            OptValue::Many(mut l) => {
                let ghost l0 = l.deep_view();
                let ghost lv0 = l@;
                let ghost t0 = t@;
                l.push(t);
                proof {
                    assert forall|k: int| 0 <= k < l.deep_view().len() implies l.deep_view()[k]
                        == l0.push(t0)[k] by {
                        if k < lv0.len() {
                            assert(l@[k] == lv0[k]);
                            assert(l0[k] == lv0[k]@);
                        } else {
                            assert(l@[k]@ == t0);
                        }
                    }
                    assert(l.deep_view() =~= l0.push(t0));
                }
                OptValue::Many(l)
            },
            OptValue::One(s) => {
                if s.as_str().is_empty() {
                    OptValue::One(t)
                } else {
                    let ghost s0 = s@;
                    let ghost t0 = t@;
                    let mut l: Vec<String> = Vec::new();
                    l.push(s);
                    l.push(t);
                    proof {
                        assert(l@[0]@ == s0);
                        assert(l@[1]@ == t0);
                        assert(l.deep_view() =~= seq![s0, t0]);
                    }
                    OptValue::Many(l)
                }
            },
        }
    }
}

/// A token that names an option: it starts with `-` and the whole token does
/// not read as a signed decimal number literal.
pub open spec fn is_flag(t: Seq<char>) -> bool {
    t.len() > 0 && t[0] == '-' && !parses_as_number(t)
}

/// The attach-value rule on one accumulated value.
pub open spec fn attach_to_value(v: ValueModel, t: Seq<char>) -> ValueModel {
    match v {
        ValueModel::One(s) => if s.len() == 0 {
            ValueModel::One(t)
        } else {
            ValueModel::Many(seq![s, t])
        },
        ValueModel::Many(l) => ValueModel::Many(l.push(t)),
    }
}

/// The attach-value rule on the map: a value token `t` goes to the option
/// named last, creating its entry when there is none yet.
pub open spec fn attach(
    m: Map<Seq<char>, ValueModel>,
    name: Seq<char>,
    t: Seq<char>,
) -> Map<Seq<char>, ValueModel> {
    if !m.contains_key(name) {
        m.insert(name, ValueModel::One(t))
    } else {
        m.insert(name, attach_to_value(m[name], t))
    }
}

/// One classification step on the state (name of the last option seen, map
/// built so far): an empty token is skipped, a flag token names the new
/// current option and enters the map with the empty sentinel when absent,
/// any other token is a value for the current option.
pub open spec fn step(
    st: (Seq<char>, Map<Seq<char>, ValueModel>),
    t: Seq<char>,
) -> (Seq<char>, Map<Seq<char>, ValueModel>) {
    if t.len() == 0 {
        st
    } else if is_flag(t) {
        (
            t,
            if st.1.contains_key(t) {
                st.1
            } else {
                st.1.insert(t, ValueModel::One(Seq::empty()))
            },
        )
    } else {
        (st.0, attach(st.1, st.0, t))
    }
}

/// The state after the first `n` tokens, starting from no option seen (the
/// empty name) and the empty map.
pub open spec fn run(tokens: Seq<Seq<char>>, n: int) -> (Seq<char>, Map<Seq<char>, ValueModel>)
    decreases n,
{
    if n <= 0 {
        (Seq::empty(), Map::empty())
    } else {
        step(run(tokens, n - 1), tokens[n - 1])
    }
}

/// The map the classifier produces for a token sequence.
pub open spec fn classify(tokens: Seq<Seq<char>>) -> Map<Seq<char>, ValueModel> {
    run(tokens, tokens.len() as int).1
}

struct Entry {
    key: String,
    val: OptValue,
}

spec fn unique_keys(s: Seq<Entry>) -> bool {
    forall|i: int, j: int|
        0 <= i < j < s.len() ==> (#[trigger] s[i].key@) != (#[trigger] s[j].key@)
}

spec fn entries_wf(s: Seq<Entry>) -> bool {
    unique_keys(s) && forall|i: int| 0 <= i < s.len() ==> value_wf(#[trigger] s[i].val@)
}

spec fn entries_map(s: Seq<Entry>) -> Map<Seq<char>, ValueModel>
    decreases s.len(),
{
    if s.len() == 0 {
        Map::empty()
    } else {
        entries_map(s.drop_last()).insert(s.last().key@, s.last().val@)
    }
}

proof fn lemma_map_dom(s: Seq<Entry>)
    ensures
        forall|k: Seq<char>|
            entries_map(s).contains_key(k) <==> exists|i: int|
                0 <= i < s.len() && (#[trigger] s[i].key@) == k,
        entries_map(s).dom().finite(),
    decreases s.len(),
{
    if s.len() == 0 {
    } else {
        lemma_map_dom(s.drop_last());
        assert forall|k: Seq<char>| entries_map(s).contains_key(k) implies exists|i: int|
            0 <= i < s.len() && (#[trigger] s[i].key@) == k by {
            if s.last().key@ == k {
                assert(s[s.len() - 1].key@ == k);
            } else {
                let i = choose|i: int| 0 <= i < s.len() - 1 && (#[trigger] s.drop_last()[i].key@) == k;
                assert(s[i].key@ == k);
            }
        }
        assert forall|k: Seq<char>|
            (exists|i: int| 0 <= i < s.len() && (#[trigger] s[i].key@) == k) implies entries_map(
            s,
        ).contains_key(k) by {
            let i = choose|i: int| 0 <= i < s.len() && (#[trigger] s[i].key@) == k;
            if i == s.len() - 1 {
            } else {
                assert(s.drop_last()[i].key@ == k);
            }
        }
    }
}

proof fn lemma_map_index(s: Seq<Entry>, i: int)
    requires
        unique_keys(s),
        0 <= i < s.len(),
    ensures
        entries_map(s).contains_key(s[i].key@),
        entries_map(s)[s[i].key@] == s[i].val@,
    decreases s.len(),
{
    if i == s.len() - 1 {
    } else {
        assert(unique_keys(s.drop_last()));
        assert(s.drop_last()[i] == s[i]);
        lemma_map_index(s.drop_last(), i);
        assert(s[i].key@ != s.last().key@);
    }
}

proof fn lemma_map_values_wf(s: Seq<Entry>)
    requires
        entries_wf(s),
    ensures
        forall|k: Seq<char>|
            entries_map(s).contains_key(k) ==> value_wf(#[trigger] entries_map(s)[k]),
{
    lemma_map_dom(s);
    assert forall|k: Seq<char>| entries_map(s).contains_key(k) implies value_wf(
        #[trigger] entries_map(s)[k],
    ) by {
        let i = choose|i: int| 0 <= i < s.len() && (#[trigger] s[i].key@) == k;
        lemma_map_index(s, i);
    }
}

proof fn lemma_map_push(s: Seq<Entry>, e: Entry)
    ensures
        entries_map(s.push(e)) == entries_map(s).insert(e.key@, e.val@),
{
    assert(s.push(e).drop_last() =~= s);
    assert(s.push(e).last() == e);
}

proof fn lemma_map_update(s: Seq<Entry>, i: int, e: Entry)
    requires
        unique_keys(s),
        0 <= i < s.len(),
        e.key@ == s[i].key@,
    ensures
        entries_map(s.update(i, e)) == entries_map(s).insert(e.key@, e.val@),
    decreases s.len(),
{
    if i == s.len() - 1 {
        assert(s.update(i, e).drop_last() =~= s.drop_last());
        assert(s.update(i, e).last() == e);
        assert(entries_map(s.drop_last()).insert(s.last().key@, s.last().val@).insert(
            e.key@,
            e.val@,
        ) =~= entries_map(s.drop_last()).insert(e.key@, e.val@));
    } else {
        assert(unique_keys(s.drop_last()));
        assert(s.drop_last()[i] == s[i]);
        lemma_map_update(s.drop_last(), i, e);
        assert(s.update(i, e).drop_last() =~= s.drop_last().update(i, e));
        assert(s.update(i, e).last() == s.last());
        assert(e.key@ != s.last().key@);
        assert(entries_map(s.drop_last()).insert(e.key@, e.val@).insert(
            s.last().key@,
            s.last().val@,
        ) =~= entries_map(s.drop_last()).insert(s.last().key@, s.last().val@).insert(
            e.key@,
            e.val@,
        ));
    }
}

fn find_index(opts: &Vec<Entry>, name: &String) -> (r: Option<usize>)
    ensures
        match r {
            Some(i) => i < opts@.len() && opts@[i as int].key@ == name@,
            None => forall|i: int| 0 <= i < opts@.len() ==> (#[trigger] opts@[i].key@) != name@,
        },
{
    let n = opts.len();
    let mut j: usize = 0;
    while j < n
        invariant
            j <= n == opts@.len(),
            forall|i: int| 0 <= i < j ==> (#[trigger] opts@[i].key@) != name@,
        decreases n - j,
    {
        if opts[j].key == *name {
            return Some(j);
        }
        j = j + 1;
    }
    None
}

/// The option map built from a token sequence.
pub struct Opt {
    opts: Vec<Entry>,
}

impl View for Opt {
    type V = Map<Seq<char>, ValueModel>;

    closed spec fn view(&self) -> Map<Seq<char>, ValueModel> {
        entries_map(self.opts@)
    }
}

/// A lookup selector: one option name, or a short and a long alias for the
/// same logical option, resolved short-first.
pub enum OptOption<'a> {
    One(&'a str),
    ShortLong(&'a str, &'a str),
}

/// Exact single-name lookup.
pub open spec fn lookup_one(m: Map<Seq<char>, ValueModel>, name: Seq<char>) -> Option<ValueModel> {
    if m.contains_key(name) {
        Option::Some(m[name])
    } else {
        Option::None
    }
}

/// Alias-pair lookup: the short name wins when both are present.
pub open spec fn lookup_pair(
    m: Map<Seq<char>, ValueModel>,
    short: Seq<char>,
    long: Seq<char>,
) -> Option<ValueModel> {
    if m.contains_key(short) {
        Option::Some(m[short])
    } else if m.contains_key(long) {
        Option::Some(m[long])
    } else {
        Option::None
    }
}

/// Default substitution: an absent option, or one still holding the empty
/// sentinel as its single value, becomes a single default value; any other
/// resolved value passes through unchanged.
pub open spec fn with_default(r: Option<ValueModel>, d: Seq<char>) -> ValueModel {
    match r {
        Option::None => ValueModel::One(d),
        Option::Some(v) => match v {
            ValueModel::One(s) => if s.len() == 0 {
                ValueModel::One(d)
            } else {
                v
            },
            ValueModel::Many(_) => v,
        },
    }
}

/// The view of an optional resolved value.
pub open spec fn opt_value_view(r: Option<OptValue>) -> Option<ValueModel> {
    match r {
        Option::Some(v) => Option::Some(v@),
        Option::None => Option::None,
    }
}

impl Opt {
    #[verifier::type_invariant]
    spec fn wf(self) -> bool {
        entries_wf(self.opts@)
    }

    /// Classifies a caller-supplied token sequence into an option map, in one
    /// left-to-right pass.
    pub fn with(args: Vec<String>) -> (r: Opt)
        ensures
            r@ == classify(args.deep_view()),
    {
        let ghost toks = args.deep_view();
        let mut opts: Vec<Entry> = Vec::new();
        let mut last_opt: String = String::new();
        let n = args.len();
        for i in 0..n
            invariant
                n == args@.len(),
                toks == args.deep_view(),
                entries_wf(opts@),
                last_opt@ == run(toks, i as int).0,
                entries_map(opts@) == run(toks, i as int).1,
        {
            let v: &String = &args[i];
            proof {
                assert(toks[i as int] == v@);
            }
            let chars = chars_of(v.as_str());
            if chars.len() == 0 {
                // an empty token is skipped outright
            } else if chars[0] == '-' && !parse_probe(v.as_str()) {
                // a new option name
                proof {
                    assert(is_flag(toks[i as int]));
                    lemma_map_dom(opts@);
                }
                last_opt = v.clone();
                match find_index(&opts, v) {
                    Some(_) => {
                        proof {
                            assert(entries_map(opts@).contains_key(v@));
                        }
                    },
                    None => {
                        proof {
                            assert(!entries_map(opts@).contains_key(v@));
                        }
                        let ghost opts0 = opts@;
                        opts.push(Entry { key: v.clone(), val: OptValue::One(String::new()) });
                        proof {
                            assert(opts@ =~= opts0.push(opts@.last()));
                            lemma_map_push(opts0, opts@.last());
                            assert(entries_map(opts@) == entries_map(opts0).insert(
                                v@,
                                ValueModel::One(Seq::empty()),
                            ));
                        }
                    },
                }
            } else {
                // a value for the current option
                proof {
                    assert(!is_flag(toks[i as int]));
                    lemma_map_dom(opts@);
                }
                match find_index(&opts, &last_opt) {
                    None => {
                        proof {
                            assert(!entries_map(opts@).contains_key(last_opt@));
                        }
                        let ghost opts0 = opts@;
                        opts.push(Entry { key: last_opt.clone(), val: OptValue::One(v.clone()) });
                        proof {
                            assert(opts@ =~= opts0.push(opts@.last()));
                            lemma_map_push(opts0, opts@.last());
                        }
                    },
                    Some(j) => {
                        proof {
                            lemma_map_index(opts@, j as int);
                        }
                        let newv = opts[j].val.clone().attach_value(v.clone());
                        proof {
                            assert(newv@ == attach_to_value(entries_map(opts@)[last_opt@], v@));
                        }
                        let ghost opts0 = opts@;
                        let e = Entry { key: last_opt.clone(), val: newv };
                        opts[j] = e;
                        proof {
                            assert(opts@ == opts0.update(j as int, opts@[j as int]));
                            lemma_map_update(opts0, j as int, opts@[j as int]);
                            assert forall|a: int, b: int|
                                0 <= a < b < opts@.len() implies (#[trigger] opts@[a].key@)
                                != (#[trigger] opts@[b].key@) by {
                                assert(opts0[a].key@ == opts@[a].key@ || a == j);
                                assert(opts0[b].key@ == opts@[b].key@ || b == j);
                            }
                            assert forall|a: int| 0 <= a < opts@.len() implies value_wf(
                                #[trigger] opts@[a].val@,
                            ) by {
                                if a != j {
                                    assert(opts@[a].val@ == opts0[a].val@);
                                }
                            }
                        }
                    },
                }
            }
        }
        let r = Opt { opts };
        r
    }

    /// Resolves a selector against the map: exact lookup for a single name,
    /// short-then-long for an alias pair, absence reported as `None`.
    pub fn get_opt(&self, op_name: OptOption) -> (r: Option<OptValue>)
        ensures
            (match op_name {
                OptOption::One(name) => opt_value_view(r) == lookup_one(self@, name@),
                OptOption::ShortLong(short, long) => opt_value_view(r) == lookup_pair(
                    self@,
                    short@,
                    long@,
                ),
            }),
            r matches Some(v) ==> value_wf(v@),
    {
        proof {
            use_type_invariant(self);
            lemma_map_values_wf(self.opts@);
            lemma_map_dom(self.opts@);
        }
        match op_name {
            OptOption::One(name) => {
                let owned = name.to_owned();
                match find_index(&self.opts, &owned) {
                    Some(i) => {
                        proof {
                            lemma_map_index(self.opts@, i as int);
                        }
                        Some(self.opts[i].val.clone())
                    },
                    None => None,
                }
            },
            OptOption::ShortLong(short, long) => {
                let owned_short = short.to_owned();
                match find_index(&self.opts, &owned_short) {
                    Some(i) => {
                        proof {
                            lemma_map_index(self.opts@, i as int);
                        }
                        Some(self.opts[i].val.clone())
                    },
                    None => {
                        let owned_long = long.to_owned();
                        match find_index(&self.opts, &owned_long) {
                            Some(i) => {
                                proof {
                                    lemma_map_index(self.opts@, i as int);
                                }
                                Some(self.opts[i].val.clone())
                            },
                            None => None,
                        }
                    },
                }
            },
        }
    }

    /// Single-name lookup with default substitution: absent, or still on the
    /// empty sentinel, gives the default as a single value.
    pub fn get_opt_short_with_default(&self, name: &str, default: &str) -> (r: OptValue)
        ensures
            r@ == with_default(lookup_one(self@, name@), default@),
    {
        match self.get_opt(OptOption::One(name)) {
            Some(v) => {
                let sentinel = match &v {
                    OptValue::One(s) => s.as_str().is_empty(),
                    OptValue::Many(_) => false,
                };
                if sentinel {
                    OptValue::One(String::from_str(default))
                } else {
                    v
                }
            },
            None => OptValue::One(String::from_str(default)),
        }
    }

    /// Alias-pair lookup with default substitution: the alias resolves first
    /// (short wins over long), and only an absent or still-sentinel result is
    /// replaced by the default.
    pub fn get_opt_normal_with_default(&self, short: &str, long: &str, default: &str) -> (r:
        OptValue)
        ensures
            r@ == with_default(lookup_pair(self@, short@, long@), default@),
    {
        match self.get_opt(Opt::normal(short, long)) {
            Some(v) => {
                let sentinel = match &v {
                    OptValue::One(s) => s.as_str().is_empty(),
                    OptValue::Many(_) => false,
                };
                if sentinel {
                    OptValue::One(String::from_str(default))
                } else {
                    v
                }
            },
            None => OptValue::One(String::from_str(default)),
        }
    }

    /// Single-name lookup.
    pub fn get_opt_short(&self, name: &str) -> (r: Option<OptValue>)
        ensures
            opt_value_view(r) == lookup_one(self@, name@),
            r matches Some(v) ==> value_wf(v@),
    {
        self.get_opt(OptOption::One(name))
    }

    /// Alias-pair lookup, short name first.
    pub fn get_opt_normal(&self, short: &str, long: &str) -> (r: Option<OptValue>)
        ensures
            opt_value_view(r) == lookup_pair(self@, short@, long@),
            r matches Some(v) ==> value_wf(v@),
    {
        self.get_opt(Opt::normal(short, long))
    }

    /// Builds a single-name selector.
    pub fn one(short: &str) -> (r: OptOption)
        ensures
            r == OptOption::One(short),
    {
        OptOption::One(short)
    }

    /// Builds a short/long alias selector.
    pub fn normal<'a>(short: &'a str, long: &'a str) -> (r: OptOption<'a>)
        ensures
            r == OptOption::ShortLong(short, long),
    {
        OptOption::ShortLong(short, long)
    }
}

} // verus!
