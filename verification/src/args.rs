//! Rewriting of the argument vector that is forwarded to the search tool.

use vstd::prelude::*;
use vstd::string::*;

verus! {

/// A flag to take out of the argument vector: its name, and whether a value follows it.
pub type FlagSpec<'a> = (&'a str, bool);

/// A flag that the rewritten argument vector must hold, by its canonical text.
pub type RequiredFlag<'a> = &'a str;

/// The specs as plain values.
pub open spec fn specs_view(options: Seq<(&str, bool)>) -> Seq<(Seq<char>, bool)> {
    options.map_values(|o: (&str, bool)| (o.0@, o.1))
}

/// The tokens as plain values.
pub open spec fn tokens_view(args: Seq<String>) -> Seq<Seq<char>> {
    args.map_values(|a: String| a@)
}

/// The first spec at or after `from` whose name the token starts with.
pub open spec fn matching_from(token: Seq<char>, specs: Seq<(Seq<char>, bool)>, from: int) -> Option<
    (Seq<char>, bool),
>
    decreases specs.len() - from,
{
    if from < 0 || from >= specs.len() {
        None
    } else if specs[from].0.is_prefix_of(token) {
        Some(specs[from])
    } else {
        matching_from(token, specs, from + 1)
    }
}

/// The first spec whose name the token starts with.
pub open spec fn matching_spec(token: Seq<char>, specs: Seq<(Seq<char>, bool)>) -> Option<
    (Seq<char>, bool),
> {
    matching_from(token, specs, 0)
}

/// Whether the token carries its value in itself, as `name=value`.
pub open spec fn has_attached_value(token: Seq<char>, name: Seq<char>) -> bool {
    (name + seq!['=']).is_prefix_of(token)
}

/// How many tokens after this one are dropped unseen, given that the token
/// itself was looked at (no skip was pending).
pub open spec fn skip_after(token: Seq<char>, specs: Seq<(Seq<char>, bool)>) -> nat {
    match matching_spec(token, specs) {
        Some((name, takes_value)) => if takes_value && !has_attached_value(token, name) {
            1
        } else {
            0
        },
        None => 0,
    }
}

/// The tokens that stay when the scan starts with `skip` tokens still to drop.
pub open spec fn removed(tokens: Seq<Seq<char>>, specs: Seq<(Seq<char>, bool)>, skip: nat) -> Seq<
    Seq<char>,
>
    decreases tokens.len(),
{
    if tokens.len() == 0 {
        Seq::empty()
    } else if skip > 0 {
        removed(tokens.drop_first(), specs, (skip - 1) as nat)
    } else if matching_spec(tokens[0], specs) is None {
        seq![tokens[0]] + removed(tokens.drop_first(), specs, 0)
    } else {
        removed(tokens.drop_first(), specs, skip_after(tokens[0], specs))
    }
}

/// The number of tokens still to drop when the scan reaches the end of `tokens`.
pub open spec fn pending_skip(tokens: Seq<Seq<char>>, specs: Seq<(Seq<char>, bool)>, skip: nat) -> nat
    decreases tokens.len(),
{
    if tokens.len() == 0 {
        skip
    } else if skip > 0 {
        pending_skip(tokens.drop_first(), specs, (skip - 1) as nat)
    } else {
        pending_skip(tokens.drop_first(), specs, skip_after(tokens[0], specs))
    }
}

/// `str::starts_with` with a string pattern: true exactly when the pattern's
/// characters are the first characters of the string.
#[verifier::external_body]
fn str_starts_with(s: &str, prefix: &str) -> (b: bool)
    ensures
        b == prefix@.is_prefix_of(s@),
{
    s.starts_with(prefix)
}

/// Finds the first spec whose name the token starts with.
pub fn find_spec<'a>(token: &str, options: &Vec<FlagSpec<'a>>) -> (found: Option<FlagSpec<'a>>)
    ensures
        match found {
            Some(o) => matching_spec(token@, specs_view(options@)) == Some((o.0@, o.1)),
            None => matching_spec(token@, specs_view(options@)) is None,
        },
{
    let mut i: usize = 0;
    while i < options.len()
        invariant
            i <= options.len(),
            matching_spec(token@, specs_view(options@)) == matching_from(
                token@,
                specs_view(options@),
                i as int,
            ),
        decreases options.len() - i,
    {
        let o = options[i];
        if str_starts_with(token, o.0) {
            return Some(o);
        }
        i += 1;
    }
    None
}

/// Whether the token has the form `name=value`.
pub fn attached_value(token: &str, name: &str) -> (b: bool)
    ensures
        b == has_attached_value(token@, name@),
{
    let mut pattern = name.to_owned();
    pattern.append("=");
    proof {
        reveal_strlit("=");
        assert("="@ =~= seq!['=']);
    }
    str_starts_with(token, pattern.as_str())
}

/// Takes the flags that `options` names out of `args`, each value-bearing one
/// together with the token after it unless its value is attached with `=`.
pub fn remove_options(args: Vec<String>, options: Vec<FlagSpec>) -> (kept: Vec<String>)
    ensures
        tokens_view(kept@) == removed(tokens_view(args@), specs_view(options@), 0),
{
    let ghost tokens = tokens_view(args@);
    let ghost specs = specs_view(options@);
    let mut kept: Vec<String> = Vec::new();
    let mut skip: usize = 0;
    let mut i: usize = 0;
    proof {
        assert(tokens.skip(0) =~= tokens);
        assert(tokens_view(kept@) + removed(tokens, specs, 0) =~= removed(tokens, specs, 0));
    }
    while i < args.len()
        invariant
            i <= args.len(),
            skip <= 1,
            tokens == tokens_view(args@),
            specs == specs_view(options@),
            removed(tokens, specs, 0) == tokens_view(kept@) + removed(
                tokens.skip(i as int),
                specs,
                skip as nat,
            ),
        decreases args.len() - i,
    {
        let ghost rest = tokens.skip(i as int);
        proof {
            assert(rest.drop_first() =~= tokens.skip(i + 1));
            assert(rest[0] == args[i as int]@);
        }
        if skip > 0 {
            skip -= 1;
        } else {
            match find_spec(args[i].as_str(), &options) {
                None => {
                    let ghost before = tokens_view(kept@);
                    kept.push(args[i].clone());
                    proof {
                        assert(tokens_view(kept@) =~= before + seq![rest[0]]);
                        assert(before + (seq![rest[0]] + removed(rest.drop_first(), specs, 0))
                            =~= (before + seq![rest[0]]) + removed(rest.drop_first(), specs, 0));
                    }
                },
                Some(o) => {
                    if o.1 && !attached_value(args[i].as_str(), o.0) {
                        skip = 1;
                    }
                },
            }
        }
        i += 1;
    }
    proof {
        assert(tokens.skip(i as int) =~= Seq::<Seq<char>>::empty());
        assert(tokens_view(kept@) + Seq::<Seq<char>>::empty() =~= tokens_view(kept@));
    }
    kept
}

/// The required flags that no token equals, in the order of `required`.
pub open spec fn missing(tokens: Seq<Seq<char>>, required: Seq<Seq<char>>) -> Seq<Seq<char>>
    decreases required.len(),
{
    if required.len() == 0 {
        Seq::empty()
    } else if tokens.contains(required.last()) {
        missing(tokens, required.drop_last())
    } else {
        missing(tokens, required.drop_last()).push(required.last())
    }
}

/// The tokens, followed by each required flag that is not among them.
pub open spec fn injected(tokens: Seq<Seq<char>>, required: Seq<Seq<char>>) -> Seq<Seq<char>> {
    tokens + missing(tokens, required)
}

/// Removal, then injection.
pub open spec fn rewritten(
    tokens: Seq<Seq<char>>,
    specs: Seq<(Seq<char>, bool)>,
    required: Seq<Seq<char>>,
) -> Seq<Seq<char>> {
    injected(removed(tokens, specs, 0), required)
}

/// The required flags as plain values.
pub open spec fn flags_view(required: Seq<&str>) -> Seq<Seq<char>> {
    required.map_values(|r: &str| r@)
}

/// Whether some token equals `flag`, character for character.
pub fn contains_token(args: &Vec<String>, flag: &str) -> (found: bool)
    ensures
        found == tokens_view(args@).contains(flag@),
{
    let wanted = flag.to_owned();
    let mut i: usize = 0;
    while i < args.len()
        invariant
            i <= args.len(),
            wanted@ == flag@,
            forall|j: int| 0 <= j < i ==> tokens_view(args@)[j] != flag@,
        decreases args.len() - i,
    {
        if args[i] == wanted {
            assert(tokens_view(args@)[i as int] == flag@);
            return true;
        }
        i += 1;
    }
    false
}

/// Appends each required flag that no token of `args` equals.
pub fn inject_required(args: Vec<String>, required: &Vec<RequiredFlag>) -> (out: Vec<String>)
    ensures
        tokens_view(out@) == injected(tokens_view(args@), flags_view(required@)),
{
    let ghost tokens = tokens_view(args@);
    let ghost flags = flags_view(required@);
    let mut absent: Vec<String> = Vec::new();
    let mut i: usize = 0;
    while i < required.len()
        invariant
            i <= required.len(),
            tokens == tokens_view(args@),
            flags == flags_view(required@),
            tokens_view(absent@) == missing(tokens, flags.take(i as int)),
        decreases required.len() - i,
    {
        proof {
            assert(flags.take(i + 1).drop_last() =~= flags.take(i as int));
            assert(flags.take(i + 1).last() == required[i as int]@);
        }
        if !contains_token(&args, required[i]) {
            let ghost before = tokens_view(absent@);
            absent.push(required[i].to_owned());
            assert(tokens_view(absent@) =~= before.push(required[i as int]@));
        }
        i += 1;
    }
    assert(flags.take(i as int) =~= flags);
    let mut out = args;
    let mut k: usize = 0;
    while k < absent.len()
        invariant
            k <= absent.len(),
            tokens_view(out@) == tokens + tokens_view(absent@).take(k as int),
        decreases absent.len() - k,
    {
        let ghost before = tokens_view(out@);
        out.push(absent[k].clone());
        proof {
            assert(tokens_view(out@) =~= before.push(absent[k as int]@));
            assert(tokens_view(absent@).take(k + 1) =~= tokens_view(absent@).take(k as int).push(
                absent[k as int]@,
            ));
        }
        k += 1;
    }
    assert(tokens_view(absent@).take(k as int) =~= tokens_view(absent@));
    out
}

/// Removes the flags of `options` from `args`, then makes sure of each required flag.
pub fn rewrite_args(args: Vec<String>, options: Vec<FlagSpec>, required: &Vec<RequiredFlag>) -> (out:
    Vec<String>)
    ensures
        tokens_view(out@) == rewritten(
            tokens_view(args@),
            specs_view(options@),
            flags_view(required@),
        ),
{
    let kept = remove_options(args, options);
    inject_required(kept, required)
}

/// The flags that every forwarded argument vector holds: structured output,
/// line numbers and three lines of context.
pub open spec fn required_flags() -> Seq<Seq<char>> {
    seq!["--json"@, "--line_number"@, "--context=3"@]
}

/// Removes the flags of `remove_args`, then appends `--json`, `--line_number`
/// and `--context=3` where no token equals them.
pub fn handle_args(args: Vec<String>, remove_args: Vec<FlagSpec>) -> (out: Vec<String>)
    ensures
        tokens_view(out@) == rewritten(
            tokens_view(args@),
            specs_view(remove_args@),
            required_flags(),
        ),
{
    let mut required: Vec<&str> = Vec::new();
    required.push("--json");
    required.push("--line_number");
    required.push("--context=3");
    assert(flags_view(required@) =~= required_flags());
    rewrite_args(args, remove_args, &required)
}

/// The flags of this front end, which the search tool does not know.
pub open spec fn managed_specs() -> Seq<(Seq<char>, bool)> {
    seq![("--replace"@, true), ("-R"@, true), ("--diff"@, true), ("--iterative"@, false)]
}

/// The argument vector for the search tool: this front end's own flags taken
/// out, the required flags made sure of.
pub fn forwarded_args(args: Vec<String>) -> (out: Vec<String>)
    ensures
        tokens_view(out@) == rewritten(tokens_view(args@), managed_specs(), required_flags()),
{
    let mut specs: Vec<(&str, bool)> = Vec::new();
    specs.push(("--replace", true));
    specs.push(("-R", true));
    specs.push(("--diff", true));
    specs.push(("--iterative", false));
    assert(specs_view(specs@) =~= managed_specs());
    handle_args(args, specs)
}

/// Owned copies of the given string slices.
pub fn to_strings(strs: Vec<&str>) -> (out: Vec<String>)
    ensures
        tokens_view(out@) == flags_view(strs@),
{
    let mut out: Vec<String> = Vec::new();
    let mut i: usize = 0;
    while i < strs.len()
        invariant
            i <= strs.len(),
            tokens_view(out@) == flags_view(strs@).take(i as int),
        decreases strs.len() - i,
    {
        let ghost before = tokens_view(out@);
        out.push(strs[i].to_owned());
        proof {
            assert(tokens_view(out@) =~= before.push(strs[i as int]@));
            assert(flags_view(strs@).take(i + 1) =~= flags_view(strs@).take(i as int).push(
                strs[i as int]@,
            ));
        }
        i += 1;
    }
    assert(flags_view(strs@).take(i as int) =~= flags_view(strs@));
    out
}

/// A scan over `a + b` is the scan over `a`, then the scan over `b` with the
/// skip that `a` left pending.
pub proof fn lemma_removed_concat(
    a: Seq<Seq<char>>,
    b: Seq<Seq<char>>,
    specs: Seq<(Seq<char>, bool)>,
    skip: nat,
)
    ensures
        removed(a + b, specs, skip) == removed(a, specs, skip) + removed(
            b,
            specs,
            pending_skip(a, specs, skip),
        ),
        pending_skip(a + b, specs, skip) == pending_skip(b, specs, pending_skip(a, specs, skip)),
    decreases a.len(),
{
    if a.len() == 0 {
        assert(a + b =~= b);
        assert(removed(a, specs, skip) + removed(b, specs, skip) =~= removed(b, specs, skip));
    } else {
        assert((a + b).drop_first() =~= a.drop_first() + b);
        assert((a + b)[0] == a[0]);
        let next: nat = if skip > 0 {
            (skip - 1) as nat
        } else {
            skip_after(a[0], specs)
        };
        lemma_removed_concat(a.drop_first(), b, specs, next);
        if skip == 0 && matching_spec(a[0], specs) is None {
            assert(seq![a[0]] + (removed(a.drop_first(), specs, 0) + removed(
                b,
                specs,
                pending_skip(a.drop_first(), specs, 0),
            )) =~= (seq![a[0]] + removed(a.drop_first(), specs, 0)) + removed(
                b,
                specs,
                pending_skip(a.drop_first(), specs, 0),
            ));
        }
    }
}

/// A value-bearing flag that the scan looks at leaves the vector together
/// with the one token after it, wherever the pair stands; at the very end,
/// where no value follows, the flag leaves alone.
pub proof fn law_detached_value_removed(
    before: Seq<Seq<char>>,
    flag: Seq<char>,
    value: Seq<char>,
    after: Seq<Seq<char>>,
    specs: Seq<(Seq<char>, bool)>,
)
    requires
        pending_skip(before, specs, 0) == 0,
        matching_spec(flag, specs) matches Some(spec) && spec.1 && !has_attached_value(flag, spec.0),
    ensures
        removed(before + seq![flag, value] + after, specs, 0) == removed(before, specs, 0)
            + removed(after, specs, 0),
        pending_skip(before + seq![flag, value], specs, 0) == 0,
        removed(before + seq![flag], specs, 0) == removed(before, specs, 0),
{
    let pair = seq![flag, value];
    assert(pair.drop_first() =~= seq![value]);
    assert(seq![value].drop_first() =~= Seq::<Seq<char>>::empty());
    assert(removed(pair, specs, 0) =~= Seq::<Seq<char>>::empty()) by {
        reveal_with_fuel(removed, 3);
    }
    assert(pending_skip(pair, specs, 0) == 0) by {
        reveal_with_fuel(pending_skip, 3);
    }
    lemma_removed_concat(before, pair, specs, 0);
    lemma_removed_concat(before + pair, after, specs, 0);
    assert(removed(before, specs, 0) + removed(pair, specs, 0) =~= removed(before, specs, 0));
    let single = seq![flag];
    assert(single.drop_first() =~= Seq::<Seq<char>>::empty());
    assert(removed(single, specs, 0) =~= Seq::<Seq<char>>::empty()) by {
        reveal_with_fuel(removed, 2);
    }
    lemma_removed_concat(before, single, specs, 0);
    assert(removed(before, specs, 0) + removed(single, specs, 0) =~= removed(before, specs, 0));
}

/// A flag that takes no value, or that carries its value attached with `=`,
/// leaves the vector alone: the token after it is looked at like any other.
pub proof fn law_single_token_removed(
    before: Seq<Seq<char>>,
    flag: Seq<char>,
    after: Seq<Seq<char>>,
    specs: Seq<(Seq<char>, bool)>,
)
    requires
        pending_skip(before, specs, 0) == 0,
        matching_spec(flag, specs) matches Some(spec) && (!spec.1 || has_attached_value(
            flag,
            spec.0,
        )),
    ensures
        removed(before + seq![flag] + after, specs, 0) == removed(before, specs, 0) + removed(
            after,
            specs,
            0,
        ),
{
    let single = seq![flag];
    assert(single.drop_first() =~= Seq::<Seq<char>>::empty());
    assert(removed(single, specs, 0) =~= Seq::<Seq<char>>::empty()) by {
        reveal_with_fuel(removed, 2);
    }
    assert(pending_skip(single, specs, 0) == 0) by {
        reveal_with_fuel(pending_skip, 2);
    }
    lemma_removed_concat(before, single, specs, 0);
    lemma_removed_concat(before + single, after, specs, 0);
    assert(removed(before, specs, 0) + removed(single, specs, 0) =~= removed(before, specs, 0));
}

/// A token that no spec matches stays where it is.
pub proof fn law_other_token_kept(
    before: Seq<Seq<char>>,
    token: Seq<char>,
    after: Seq<Seq<char>>,
    specs: Seq<(Seq<char>, bool)>,
)
    requires
        pending_skip(before, specs, 0) == 0,
        matching_spec(token, specs) is None,
    ensures
        removed(before + seq![token] + after, specs, 0) == removed(before, specs, 0).push(token)
            + removed(after, specs, 0),
{
    let single = seq![token];
    assert(single.drop_first() =~= Seq::<Seq<char>>::empty());
    assert(removed(single, specs, 0) =~= single) by {
        reveal_with_fuel(removed, 2);
    }
    assert(pending_skip(single, specs, 0) == 0) by {
        reveal_with_fuel(pending_skip, 2);
    }
    lemma_removed_concat(before, single, specs, 0);
    lemma_removed_concat(before + single, after, specs, 0);
    assert(removed(before, specs, 0) + single =~= removed(before, specs, 0).push(token));
}

/// Injecting a flag that some token equals changes nothing; injecting one
/// that no token equals appends it once.
pub proof fn law_inject_one(tokens: Seq<Seq<char>>, flag: Seq<char>)
    ensures
        tokens.contains(flag) ==> injected(tokens, seq![flag]) == tokens,
        !tokens.contains(flag) ==> injected(tokens, seq![flag]) == tokens.push(flag),
{
    let one = seq![flag];
    assert(one.drop_last() =~= Seq::<Seq<char>>::empty());
    assert(one.last() == flag);
    reveal_with_fuel(missing, 2);
    if tokens.contains(flag) {
        assert(missing(tokens, one) =~= Seq::<Seq<char>>::empty());
        assert(tokens + missing(tokens, one) =~= tokens);
    } else {
        assert(missing(tokens, one) =~= seq![flag]);
        assert(tokens + missing(tokens, one) =~= tokens.push(flag));
    }
}

/// No spec matches a token that removal has kept.
pub proof fn lemma_removed_unmatched(
    tokens: Seq<Seq<char>>,
    specs: Seq<(Seq<char>, bool)>,
    skip: nat,
)
    ensures
        forall|i: int|
            0 <= i < removed(tokens, specs, skip).len() ==> matching_spec(
                #[trigger] removed(tokens, specs, skip)[i],
                specs,
            ) is None,
    decreases tokens.len(),
{
    if tokens.len() > 0 {
        if skip > 0 {
            lemma_removed_unmatched(tokens.drop_first(), specs, (skip - 1) as nat);
        } else if matching_spec(tokens[0], specs) is None {
            lemma_removed_unmatched(tokens.drop_first(), specs, 0);
        } else {
            lemma_removed_unmatched(tokens.drop_first(), specs, skip_after(tokens[0], specs));
        }
    }
}

/// Removal keeps a vector whole when no spec matches any of its tokens.
pub proof fn lemma_removed_identity(tokens: Seq<Seq<char>>, specs: Seq<(Seq<char>, bool)>)
    requires
        forall|i: int| 0 <= i < tokens.len() ==> matching_spec(#[trigger] tokens[i], specs) is None,
    ensures
        removed(tokens, specs, 0) == tokens,
    decreases tokens.len(),
{
    if tokens.len() > 0 {
        assert forall|i: int| 0 <= i < tokens.drop_first().len() implies matching_spec(
            #[trigger] tokens.drop_first()[i],
            specs,
        ) is None by {
            assert(tokens.drop_first()[i] == tokens[i + 1]);
        }
        lemma_removed_identity(tokens.drop_first(), specs);
        assert(seq![tokens[0]] + tokens.drop_first() =~= tokens);
    } else {
        assert(tokens =~= Seq::<Seq<char>>::empty());
    }
}

/// Each missing flag is a required flag that no token equals, and each
/// required flag is among the tokens or among the missing ones.
pub proof fn lemma_missing_members(tokens: Seq<Seq<char>>, required: Seq<Seq<char>>)
    ensures
        forall|i: int|
            0 <= i < missing(tokens, required).len() ==> required.contains(
                #[trigger] missing(tokens, required)[i],
            ) && !tokens.contains(missing(tokens, required)[i]),
        forall|j: int|
            0 <= j < required.len() ==> tokens.contains(#[trigger] required[j]) || missing(
                tokens,
                required,
            ).contains(required[j]),
    decreases required.len(),
{
    if required.len() > 0 {
        let front = required.drop_last();
        lemma_missing_members(tokens, front);
        let m = missing(tokens, required);
        assert forall|i: int| 0 <= i < m.len() implies required.contains(#[trigger] m[i])
            && !tokens.contains(m[i]) by {
            if i < missing(tokens, front).len() {
                let w = choose|w: int| 0 <= w < front.len() && front[w] == missing(tokens, front)[i];
                assert(required[w] == m[i]);
            } else {
                assert(required[required.len() - 1] == m[i]);
            }
        }
        assert forall|j: int| 0 <= j < required.len() implies tokens.contains(
            #[trigger] required[j],
        ) || m.contains(required[j]) by {
            if j < front.len() {
                assert(front[j] == required[j]);
                if !tokens.contains(required[j]) {
                    let w = choose|w: int|
                        0 <= w < missing(tokens, front).len() && missing(tokens, front)[w]
                            == front[j];
                    assert(m[w] == required[j]);
                }
            } else if !tokens.contains(required[j]) {
                assert(m[m.len() - 1] == required[j]);
            }
        }
    }
}

/// Nothing is missing from a vector that holds every required flag.
pub proof fn lemma_nothing_missing(tokens: Seq<Seq<char>>, required: Seq<Seq<char>>)
    requires
        forall|j: int| 0 <= j < required.len() ==> tokens.contains(#[trigger] required[j]),
    ensures
        missing(tokens, required) == Seq::<Seq<char>>::empty(),
    decreases required.len(),
{
    if required.len() > 0 {
        assert forall|j: int| 0 <= j < required.drop_last().len() implies tokens.contains(
            #[trigger] required.drop_last()[j],
        ) by {
            assert(required.drop_last()[j] == required[j]);
        }
        lemma_nothing_missing(tokens, required.drop_last());
        assert(tokens.contains(required[required.len() - 1]));
    }
}

/// Rewriting a rewritten vector changes nothing, where no spec matches a
/// flag that the first rewriting appended.
pub proof fn law_rewrite_idempotent(
    tokens: Seq<Seq<char>>,
    specs: Seq<(Seq<char>, bool)>,
    required: Seq<Seq<char>>,
)
    requires
        forall|i: int|
            0 <= i < missing(removed(tokens, specs, 0), required).len() ==> matching_spec(
                #[trigger] missing(removed(tokens, specs, 0), required)[i],
                specs,
            ) is None,
    ensures
        rewritten(rewritten(tokens, specs, required), specs, required) == rewritten(
            tokens,
            specs,
            required,
        ),
{
    let kept = removed(tokens, specs, 0);
    let added = missing(kept, required);
    let once = kept + added;
    lemma_removed_unmatched(tokens, specs, 0);
    assert forall|i: int| 0 <= i < once.len() implies matching_spec(#[trigger] once[i], specs)
        is None by {
        if i < kept.len() {
            assert(once[i] == kept[i]);
        } else {
            assert(once[i] == added[i - kept.len()]);
        }
    }
    lemma_removed_identity(once, specs);
    lemma_missing_members(kept, required);
    assert forall|j: int| 0 <= j < required.len() implies once.contains(#[trigger] required[j]) by {
        if kept.contains(required[j]) {
            let w = choose|w: int| 0 <= w < kept.len() && kept[w] == required[j];
            assert(once[w] == required[j]);
        } else {
            let w = choose|w: int| 0 <= w < added.len() && added[w] == required[j];
            assert(once[kept.len() + w] == required[j]);
        }
    }
    lemma_nothing_missing(once, required);
    assert(once + Seq::<Seq<char>>::empty() =~= once);
}

/// How often the token occurs among the tokens.
pub open spec fn occurrences(tokens: Seq<Seq<char>>, token: Seq<char>) -> nat
    decreases tokens.len(),
{
    if tokens.len() == 0 {
        0
    } else if tokens.last() == token {
        occurrences(tokens.drop_last(), token) + 1
    } else {
        occurrences(tokens.drop_last(), token)
    }
}

/// Occurrences add up over a concatenation, and a token occurs in a list
/// exactly when its count there is not 0.
pub proof fn lemma_occurrences(a: Seq<Seq<char>>, b: Seq<Seq<char>>, token: Seq<char>)
    ensures
        occurrences(a + b, token) == occurrences(a, token) + occurrences(b, token),
        occurrences(b, token) > 0 <==> b.contains(token),
    decreases b.len(),
{
    if b.len() == 0 {
        assert(a + b =~= a);
    } else {
        assert((a + b).drop_last() =~= a + b.drop_last());
        assert((a + b).last() == b.last());
        lemma_occurrences(a, b.drop_last(), token);
        if b.last() == token {
            assert(b[b.len() - 1] == token);
        } else if b.contains(token) {
            let w = choose|w: int| 0 <= w < b.len() && b[w] == token;
            assert(b.drop_last()[w] == token);
        } else if b.drop_last().contains(token) {
            let w = choose|w: int| 0 <= w < b.drop_last().len() && b.drop_last()[w] == token;
            assert(b[w] == token);
        }
    }
}

/// Among the missing flags, a flag occurs once where it is required and no
/// token equals it, else not at all; given that no flag is required twice.
pub proof fn lemma_missing_once(tokens: Seq<Seq<char>>, required: Seq<Seq<char>>, flag: Seq<char>)
    requires
        required.no_duplicates(),
    ensures
        occurrences(missing(tokens, required), flag) == if required.contains(flag)
            && !tokens.contains(flag) {
            1nat
        } else {
            0nat
        },
    decreases required.len(),
{
    if required.len() > 0 {
        let front = required.drop_last();
        let last = required.last();
        assert forall|i: int, j: int| 0 <= i < front.len() && 0 <= j < front.len() && i != j implies front[i]
            != front[j] by {
            assert(front[i] == required[i] && front[j] == required[j]);
        }
        lemma_missing_once(tokens, front, flag);
        if front.contains(flag) {
            let w = choose|w: int| 0 <= w < front.len() && front[w] == flag;
            assert(required[w] == flag);
            assert(last != flag);
        } else if last == flag {
            assert(required[required.len() - 1] == flag);
        } else if required.contains(flag) {
            let w = choose|w: int| 0 <= w < required.len() && required[w] == flag;
            assert(front[w] == flag);
        }
        if !tokens.contains(last) {
            assert(missing(tokens, front).push(last).drop_last() =~= missing(tokens, front));
        }
    }
}

/// The rewritten vector holds every required flag; and it holds a required
/// flag exactly once, given that no flag is required twice and that the
/// flag does not stay more than once after the removal.
pub proof fn law_required_flags_present(
    tokens: Seq<Seq<char>>,
    specs: Seq<(Seq<char>, bool)>,
    required: Seq<Seq<char>>,
)
    ensures
        forall|j: int|
            0 <= j < required.len() ==> rewritten(tokens, specs, required).contains(
                #[trigger] required[j],
            ),
        required.no_duplicates() ==> forall|j: int|
            0 <= j < required.len() && occurrences(removed(tokens, specs, 0), #[trigger] required[j])
                <= 1 ==> occurrences(rewritten(tokens, specs, required), required[j]) == 1,
{
    let kept = removed(tokens, specs, 0);
    let added = missing(kept, required);
    lemma_missing_members(kept, required);
    assert forall|j: int| 0 <= j < required.len() implies (kept + added).contains(
        #[trigger] required[j],
    ) by {
        if kept.contains(required[j]) {
            let w = choose|w: int| 0 <= w < kept.len() && kept[w] == required[j];
            assert((kept + added)[w] == required[j]);
        } else {
            let w = choose|w: int| 0 <= w < added.len() && added[w] == required[j];
            assert((kept + added)[kept.len() + w] == required[j]);
        }
    }
    if required.no_duplicates() {
        assert forall|j: int|
            0 <= j < required.len() && occurrences(kept, #[trigger] required[j])
                <= 1 implies occurrences(kept + added, required[j]) == 1 by {
            lemma_occurrences(kept, added, required[j]);
            lemma_occurrences(Seq::empty(), kept, required[j]);
            lemma_missing_once(kept, required, required[j]);
        }
    }
}

/// None of this front end's own specs matches a required flag.
pub proof fn lemma_required_unmatched()
    ensures
        forall|j: int|
            0 <= j < required_flags().len() ==> matching_spec(
                #[trigger] required_flags()[j],
                managed_specs(),
            ) is None,
{
    reveal_strlit("--json");
    reveal_strlit("--line_number");
    reveal_strlit("--context=3");
    reveal_strlit("--replace");
    reveal_strlit("-R");
    reveal_strlit("--diff");
    reveal_strlit("--iterative");
    reveal_with_fuel(matching_from, 5);
    let specs = managed_specs();
    assert forall|j: int| 0 <= j < required_flags().len() implies matching_spec(
        #[trigger] required_flags()[j],
        specs,
    ) is None by {
        let flag = required_flags()[j];
        assert(!specs[0].0.is_prefix_of(flag)) by {
            if specs[0].0.len() <= flag.len() {
                assert(flag.subrange(0, specs[0].0.len() as int)[2] != specs[0].0[2]);
            }
        }
        assert(!specs[1].0.is_prefix_of(flag)) by {
            assert(flag.subrange(0, specs[1].0.len() as int)[1] != specs[1].0[1]);
        }
        assert(!specs[2].0.is_prefix_of(flag)) by {
            assert(flag.subrange(0, specs[2].0.len() as int)[2] != specs[2].0[2]);
        }
        assert(!specs[3].0.is_prefix_of(flag)) by {
            if specs[3].0.len() <= flag.len() {
                assert(flag.subrange(0, specs[3].0.len() as int)[2] != specs[3].0[2]);
            }
        }
    }
}

/// Forwarding a forwarded argument vector changes nothing: with this front
/// end's own specs and required flags, rewriting twice is rewriting once.
pub proof fn law_forwarding_idempotent(tokens: Seq<Seq<char>>)
    ensures
        rewritten(
            rewritten(tokens, managed_specs(), required_flags()),
            managed_specs(),
            required_flags(),
        ) == rewritten(tokens, managed_specs(), required_flags()),
{
    let kept = removed(tokens, managed_specs(), 0);
    let added = missing(kept, required_flags());
    lemma_required_unmatched();
    lemma_missing_members(kept, required_flags());
    assert forall|i: int| 0 <= i < added.len() implies matching_spec(
        #[trigger] added[i],
        managed_specs(),
    ) is None by {
        let w = choose|w: int| 0 <= w < required_flags().len() && required_flags()[w] == added[i];
    }
    law_rewrite_idempotent(tokens, managed_specs(), required_flags());
}

} // verus!
