//! Arguments of the query commands: positional values, in order, and
//! `--name value` options, each name with every value given for it.
use vstd::prelude::*;

use crate::identity::SnapshotId;
use crate::maps::{keys_distinct, has_key, seq_map, lemma_seq_map, lemma_seq_map_update, lemma_seq_map_insert};
use crate::numbers::{IntErrorKind, kind_message, parse_unsigned_spec, parse_u32_chars, parse_u64_chars, parse_usize_chars};
use crate::text::{chars_of, string_of, append_chars, slice_chars, seq_lt, compare_chars, lemma_seq_lt_total, lemma_seq_lt_asymmetric, lemma_seq_lt_transitive};

verus! {

/// The text of each string.
pub open spec fn texts(v: Seq<String>) -> Seq<Seq<char>> {
    v.map_values(|s: String| s@)
}

/// Option names with the text of their values.
pub open spec fn option_pairs(o: Seq<(String, Vec<String>)>) -> Seq<(Seq<char>, Seq<Seq<char>>)> {
    o.map_values(|p: (String, Vec<String>)| (p.0@, texts(p.1@)))
}

/// The values given for `name`, none when it was not given.
pub open spec fn values_of(m: Map<Seq<char>, Seq<Seq<char>>>, name: Seq<char>) -> Seq<Seq<char>> {
    if m.contains_key(name) {
        m[name]
    } else {
        Seq::empty()
    }
}

/// An argument that starts with `--` names an option.
pub open spec fn is_option(a: Seq<char>) -> bool {
    a.len() >= 2 && a[0] == '-' && a[1] == '-'
}

/// Reading the arguments from position `i` on, with `pos` and `opts` read so far.
pub open spec fn parse_from(
    args: Seq<Seq<char>>,
    i: int,
    pos: Seq<Seq<char>>,
    opts: Map<Seq<char>, Seq<Seq<char>>>,
) -> Result<(Seq<Seq<char>>, Map<Seq<char>, Seq<Seq<char>>>), Seq<char>>
    decreases args.len() - i,
{
    if i < 0 || i >= args.len() {
        Ok((pos, opts))
    } else if is_option(args[i]) {
        let name = args[i].skip(2);
        if name.len() == 0 {
            Err("option name cannot be empty"@)
        } else if i + 1 >= args.len() {
            Err("--"@ + name + " requires a value"@)
        } else {
            parse_from(args, i + 2, pos, opts.insert(name, values_of(opts, name).push(args[i + 1])))
        }
    } else {
        parse_from(args, i + 1, pos.push(args[i]), opts)
    }
}

/// The positional values and options of a command line, or why it is malformed.
pub open spec fn parse_arguments(args: Seq<Seq<char>>) -> Result<
    (Seq<Seq<char>>, Map<Seq<char>, Seq<Seq<char>>>),
    Seq<char>,
> {
    parse_from(args, 0, Seq::empty(), Map::empty())
}

/// The message for an option given more than once.
pub open spec fn repeated_message(name: Seq<char>) -> Seq<char> {
    "option --"@ + name + " may only be supplied once"@
}

/// The message for an option the command does not take.
pub open spec fn unknown_message(name: Seq<char>, usage: Seq<char>) -> Seq<char> {
    "unknown option --"@ + name + "\n"@ + usage
}

/// The message for an option value that is not a number of the wanted type.
pub open spec fn invalid_message(name: Seq<char>, kind: IntErrorKind) -> Seq<char> {
    "invalid --"@ + name + ": "@ + kind_message(kind)
}

/// Whether `name` is one of `allowed`.
pub open spec fn is_allowed(allowed: Seq<&str>, name: Seq<char>) -> bool {
    exists|i: int| 0 <= i < allowed.len() && (#[trigger] allowed[i])@ == name
}

/// `name` is the first, in character order, of the options in `m` that are
/// not among `allowed`.
pub open spec fn least_unknown(m: Map<Seq<char>, Seq<Seq<char>>>, allowed: Seq<&str>, name: Seq<char>) -> bool {
    &&& m.contains_key(name)
    &&& !is_allowed(allowed, name)
    &&& forall|other: Seq<char>|
        #[trigger] m.contains_key(other) && !is_allowed(allowed, other) && other != name ==> seq_lt(name, other)
}

/// `name` is the first, in character order, of the options in `m` given more
/// than once.
pub open spec fn least_repeated(m: Map<Seq<char>, Seq<Seq<char>>>, name: Seq<char>) -> bool {
    &&& m.contains_key(name)
    &&& values_of(m, name).len() > 1
    &&& forall|other: Seq<char>|
        #[trigger] m.contains_key(other) && values_of(m, other).len() > 1 && other != name ==> seq_lt(name, other)
}

/// A value that an option can hold: a decimal number of some integer type.
pub trait OptionValue: Sized {
    spec fn parsed(s: Seq<char>) -> Result<Self, IntErrorKind>;

    fn parse_value(s: &str) -> (r: Result<Self, IntErrorKind>)
        ensures
            r == Self::parsed(s@),
    ;
}

impl OptionValue for u32 {
    open spec fn parsed(s: Seq<char>) -> Result<u32, IntErrorKind> {
        match parse_unsigned_spec(s, u32::MAX as nat) {
            Ok(v) => Ok(v as u32),
            Err(e) => Err(e),
        }
    }

    fn parse_value(s: &str) -> (r: Result<u32, IntErrorKind>) {
        parse_u32_chars(&chars_of(s))
    }
}

impl OptionValue for u64 {
    open spec fn parsed(s: Seq<char>) -> Result<u64, IntErrorKind> {
        match parse_unsigned_spec(s, u64::MAX as nat) {
            Ok(v) => Ok(v as u64),
            Err(e) => Err(e),
        }
    }

    fn parse_value(s: &str) -> (r: Result<u64, IntErrorKind>) {
        parse_u64_chars(&chars_of(s))
    }
}

impl OptionValue for usize {
    open spec fn parsed(s: Seq<char>) -> Result<usize, IntErrorKind> {
        match parse_unsigned_spec(s, usize::MAX as nat) {
            Ok(v) => Ok(v as usize),
            Err(e) => Err(e),
        }
    }

    fn parse_value(s: &str) -> (r: Result<usize, IntErrorKind>) {
        parse_usize_chars(&chars_of(s))
    }
}

/// The store connection a command uses.
#[derive(Debug, Clone, PartialEq, Eq)]
pub struct Connection {
    pub namespace: String,
    pub database: String,
}

/// A parsed command line.
#[derive(Debug, Clone, PartialEq, Eq)]
pub struct Arguments {
    pub positionals: Vec<String>,
    /// Each option name once, with its values in the order given.
    pub options: Vec<(String, Vec<String>)>,
}

impl Arguments {
    pub open spec fn wf(&self) -> bool {
        keys_distinct(option_pairs(self.options@))
    }

    pub open spec fn positional_texts(&self) -> Seq<Seq<char>> {
        texts(self.positionals@)
    }

    pub open spec fn option_map(&self) -> Map<Seq<char>, Seq<Seq<char>>> {
        seq_map(option_pairs(self.options@))
    }

    /// What `option(name)` answers: an error for a repeated option, else its
    /// only value, if any.
    pub open spec fn option_spec(&self, name: Seq<char>) -> Result<Option<Seq<char>>, Seq<char>> {
        let vs = values_of(self.option_map(), name);
        if vs.len() > 1 {
            Err(repeated_message(name))
        } else if vs.len() == 1 {
            Ok(Some(vs[0]))
        } else {
            Ok(None)
        }
    }

    /// Splits a command line into positional values and `--name value` options.
    pub fn parse(arguments: Vec<String>) -> (r: Result<Self, String>)
        ensures
            match parse_arguments(texts(arguments@)) {
                Ok(p) => r matches Ok(a) && a.wf() && a.positional_texts() == p.0 && a.option_map()
                    == p.1,
                Err(m) => r matches Err(e) && e@ == m,
            },
    {
        let ghost args = texts(arguments@);
        let mut positionals: Vec<String> = Vec::new();
        let mut options: Vec<(String, Vec<String>)> = Vec::new();
        proof {
            assert(texts(positionals@) =~= Seq::<Seq<char>>::empty());
            assert(option_pairs(options@) =~= Seq::<(Seq<char>, Seq<Seq<char>>)>::empty());
        }
        let mut i: usize = 0;
        while i < arguments.len()
            invariant
                i <= arguments@.len(),
                args == texts(arguments@),
                keys_distinct(option_pairs(options@)),
                parse_arguments(args) == parse_from(
                    args,
                    i as int,
                    texts(positionals@),
                    seq_map(option_pairs(options@)),
                ),
            decreases arguments@.len() - i,
        {
            let a = chars_of(arguments[i].as_str());
            assert(args[i as int] == a@);
            if a.len() >= 2 && a[0] == '-' && a[1] == '-' {
                let name = slice_chars(&a, 2, a.len());
                assert(name@ =~= a@.skip(2));
                if name.len() == 0 {
                    return Err("option name cannot be empty".to_owned());
                }
                if i + 1 >= arguments.len() {
                    let mut m = chars_of("--");
                    append_chars(&mut m, &name);
                    append_chars(&mut m, &chars_of(" requires a value"));
                    return Err(string_of(&m));
                }
                let value = arguments[i + 1].clone();
                assert(args[i + 1] == value@);
                add_option(&mut options, string_of(&name), value);
                i = i + 2;
            } else {
                let ghost before = positionals@;
                positionals.push(arguments[i].clone());
                assert(texts(positionals@) =~= texts(before).push(a@));
                i = i + 1;
            }
        }
        Ok(Arguments { positionals, options })
    }

    fn find_option(&self, name: &str) -> (r: Option<usize>)
        requires
            self.wf(),
        ensures
            r matches Some(j) ==> j < self.options@.len() && self.options@[j as int].0@ == name@,
            r is None ==> !has_key(option_pairs(self.options@), name@),
    {
        let key = name.to_owned();
        let mut j: usize = 0;
        while j < self.options.len()
            invariant
                j <= self.options@.len(),
                key@ == name@,
                forall|k: int| 0 <= k < j ==> (#[trigger] self.options@[k]).0@ != name@,
            decreases self.options@.len() - j,
        {
            if self.options[j].0 == key {
                return Some(j);
            }
            j = j + 1;
        }
        proof {
            if has_key(option_pairs(self.options@), name@) {
                let k = choose|k: int|
                    0 <= k < option_pairs(self.options@).len() && option_pairs(self.options@)[k].0
                        == name@;
                assert(self.options@[k].0@ == name@);
            }
        }
        None
    }

    /// The value of a single-valued option.
    pub fn option(&self, name: &str) -> (r: Result<Option<&str>, String>)
        requires
            self.wf(),
        ensures
            match self.option_spec(name@) {
                Ok(Some(v)) => r matches Ok(Some(s)) && s@ == v,
                Ok(None) => r matches Ok(None),
                Err(m) => r matches Err(e) && e@ == m,
            },
    {
        proof {
            lemma_seq_map(option_pairs(self.options@));
        }
        match self.find_option(name) {
            None => Ok(None),
            Some(j) => {
                let values = &self.options[j].1;
                assert(option_pairs(self.options@)[j as int] == (name@, texts(values@)));
                assert(values_of(self.option_map(), name@) == texts(values@));
                if values.len() > 1 {
                    Err(repeated(name))
                } else if values.len() == 1 {
                    Ok(Some(values[0].as_str()))
                } else {
                    Ok(None)
                }
            },
        }
    }

    /// The value of a single-valued option, read as a number of type `T`.
    pub fn parse_option<T: OptionValue>(&self, name: &str) -> (r: Result<Option<T>, String>)
        requires
            self.wf(),
        ensures
            match self.option_spec(name@) {
                Ok(Some(v)) => match T::parsed(v) {
                    Ok(x) => r == Ok::<Option<T>, String>(Some(x)),
                    Err(k) => r matches Err(e) && e@ == invalid_message(name@, k),
                },
                Ok(None) => r matches Ok(None),
                Err(m) => r matches Err(e) && e@ == m,
            },
    {
        match self.option(name) {
            Err(e) => Err(e),
            Ok(None) => Ok(None),
            Ok(Some(value)) => match T::parse_value(value) {
                Ok(x) => Ok(Some(x)),
                Err(k) => {
                    let mut m = chars_of("invalid --");
                    append_chars(&mut m, &chars_of(name));
                    append_chars(&mut m, &chars_of(": "));
                    append_chars(&mut m, &chars_of(k.message()));
                    Err(string_of(&m))
                },
            },
        }
    }

    /// The namespace and database options, `detamu` where absent.
    pub fn connection(&self) -> (r: Result<Connection, String>)
        requires
            self.wf(),
        ensures
            match (self.option_spec("namespace"@), self.option_spec("database"@)) {
                (Err(m), _) => r matches Err(e) && e@ == m,
                (Ok(_), Err(m)) => r matches Err(e) && e@ == m,
                (Ok(n), Ok(d)) => r matches Ok(c) && c.namespace@ == (match n {
                    Some(v) => v,
                    None => "detamu"@,
                }) && c.database@ == (match d {
                    Some(v) => v,
                    None => "detamu"@,
                }),
            },
    {
        let namespace = match self.option("namespace") {
            Err(e) => return Err(e),
            Ok(Some(v)) => v.to_owned(),
            Ok(None) => "detamu".to_owned(),
        };
        let database = match self.option("database") {
            Err(e) => return Err(e),
            Ok(Some(v)) => v.to_owned(),
            Ok(None) => "detamu".to_owned(),
        };
        Ok(Connection { namespace, database })
    }

    /// The snapshot named by the positional values at `world` and `version`.
    pub fn snapshot(&self, world: usize, version: usize) -> (r: SnapshotId)
        requires
            world < self.positionals@.len(),
            version < self.positionals@.len(),
        ensures
            r.world@ == self.positionals@[world as int]@,
            r.version@ == self.positionals@[version as int]@,
    {
        SnapshotId::new(self.positionals[world].as_str(), self.positionals[version].as_str())
    }

    /// Checks the number of positional values; the usage text otherwise.
    pub fn require_positionals(&self, expected: usize, usage: &str) -> (r: Result<(), String>)
        ensures
            r is Ok <==> self.positionals@.len() == expected,
            r matches Err(e) ==> e@ == usage@,
    {
        if self.positionals.len() == expected {
            Ok(())
        } else {
            Err(usage.to_owned())
        }
    }

    /// Checks that every option is one of `allowed` and is given once: the
    /// first unknown option, in name order, is reported with the usage text;
    /// failing that, the first repeated one.
    pub fn allow_options(&self, allowed: &[&str], usage: &str) -> (r: Result<(), String>)
        requires
            self.wf(),
        ensures
            r is Ok <==> (forall|n: Seq<char>| #[trigger] self.option_map().contains_key(n) ==> is_allowed(allowed@, n)
                && values_of(self.option_map(), n).len() <= 1),
            r matches Err(e) ==> (exists|n: Seq<char>| #[trigger] least_unknown(self.option_map(), allowed@, n)
                && e@ == unknown_message(n, usage@)) || ((forall|x: Seq<char>| #[trigger] self.option_map().contains_key(x) ==> is_allowed(allowed@, x))
                && exists|n: Seq<char>| #[trigger] least_repeated(self.option_map(), n) && e@ == repeated_message(n)),
    {
        proof {
            lemma_seq_map(option_pairs(self.options@));
        }
        let ghost m = self.option_map();
        let ghost pairs = option_pairs(self.options@);
        // The first unknown name and the first repeated name seen so far.
        let mut first_unknown: Option<usize> = None;
        let mut first_repeated: Option<usize> = None;
        let mut j: usize = 0;
        while j < self.options.len()
            invariant
                j <= self.options@.len(),
                self.wf(),
                m == self.option_map(),
                pairs == option_pairs(self.options@),
                forall|k: int| 0 <= k < pairs.len() ==> #[trigger] m[pairs[k].0] == pairs[k].1,
                forall|k: Seq<char>| #[trigger] m.contains_key(k) <==> has_key(pairs, k),
                match first_unknown {
                    Some(u) => u < j && !is_allowed(allowed@, pairs[u as int].0) && forall|k: int|
                        0 <= k < j && k != u && !is_allowed(allowed@, #[trigger] pairs[k].0) ==> seq_lt(pairs[u as int].0, pairs[k].0),
                    None => forall|k: int| 0 <= k < j ==> is_allowed(allowed@, #[trigger] pairs[k].0),
                },
                match first_repeated {
                    Some(u) => u < j && values_of(m, pairs[u as int].0).len() > 1 && forall|k: int|
                        0 <= k < j && k != u && values_of(m, #[trigger] pairs[k].0).len() > 1 ==> seq_lt(pairs[u as int].0, pairs[k].0),
                    None => forall|k: int| 0 <= k < j ==> values_of(m, #[trigger] pairs[k].0).len() <= 1,
                },
            decreases self.options@.len() - j,
        {
            let name = chars_of(self.options[j].0.as_str());
            assert(pairs[j as int].0 == name@);
            assert(m.contains_key(name@)) by {
                assert(pairs[j as int].0 == name@);
                assert(has_key(pairs, name@));
            }
            let known = is_in(allowed, &name);
            if !known {
                let better = match first_unknown {
                    None => true,
                    Some(u) => compare_chars(&name, &chars_of(self.options[u].0.as_str())) < 0,
                };
                proof {
                    if let Some(u) = first_unknown {
                        assert(pairs[u as int].0 == self.options@[u as int].0@);
                        lemma_seq_lt_total(name@, pairs[u as int].0);
                        assert(name@ != pairs[u as int].0) by {
                            assert(pairs[u as int].0 != pairs[j as int].0);
                        }
                        if better {
                            assert forall|k: int| 0 <= k < j && !is_allowed(allowed@, #[trigger] pairs[k].0) implies seq_lt(
                                name@,
                                pairs[k].0,
                            ) by {
                                if k != u {
                                    lemma_seq_lt_transitive(name@, pairs[u as int].0, pairs[k].0);
                                }
                            }
                        }
                    }
                }
                if better {
                    first_unknown = Some(j);
                }
            }
            let many = self.options[j].1.len() > 1;
            assert(values_of(m, pairs[j as int].0).len() > 1 <==> many) by {
                assert(pairs[j as int].1 == texts(self.options@[j as int].1@));
            }
            if many {
                let better = match first_repeated {
                    None => true,
                    Some(u) => compare_chars(&name, &chars_of(self.options[u].0.as_str())) < 0,
                };
                proof {
                    if let Some(u) = first_repeated {
                        assert(pairs[u as int].0 == self.options@[u as int].0@);
                        lemma_seq_lt_total(name@, pairs[u as int].0);
                        assert(name@ != pairs[u as int].0) by {
                            assert(pairs[u as int].0 != pairs[j as int].0);
                        }
                        if better {
                            assert forall|k: int| 0 <= k < j && values_of(m, #[trigger] pairs[k].0).len() > 1 implies seq_lt(
                                name@,
                                pairs[k].0,
                            ) by {
                                if k != u {
                                    lemma_seq_lt_transitive(name@, pairs[u as int].0, pairs[k].0);
                                }
                            }
                        }
                    }
                }
                if better {
                    first_repeated = Some(j);
                }
            }
            j = j + 1;
        }
        match first_unknown {
            Some(u) => {
                let ghost n = pairs[u as int].0;
                proof {
                    assert(m.contains_key(n)) by {
                        assert(has_key(pairs, n));
                    }
                    assert forall|other: Seq<char>| #[trigger] m.contains_key(other) && !is_allowed(allowed@, other) && other != n implies seq_lt(n, other) by {
                        assert(has_key(pairs, other));
                        let k = choose|k: int| 0 <= k < pairs.len() && pairs[k].0 == other;
                    }
                    assert(least_unknown(m, allowed@, n));
                }
                let mut msg = chars_of("unknown option --");
                append_chars(&mut msg, &chars_of(self.options[u].0.as_str()));
                append_chars(&mut msg, &chars_of("\n"));
                append_chars(&mut msg, &chars_of(usage));
                Err(string_of(&msg))
            },
            None => {
                proof {
                    assert forall|x: Seq<char>| #[trigger] m.contains_key(x) implies is_allowed(allowed@, x) by {
                        assert(has_key(pairs, x));
                        let k = choose|k: int| 0 <= k < pairs.len() && pairs[k].0 == x;
                        assert(is_allowed(allowed@, pairs[k].0));
                    }
                }
                match first_repeated {
                    Some(u) => {
                        let ghost n = pairs[u as int].0;
                        proof {
                            assert(m.contains_key(n)) by {
                                assert(has_key(pairs, n));
                            }
                            assert forall|other: Seq<char>| #[trigger] m.contains_key(other) && values_of(m, other).len() > 1 && other != n implies seq_lt(n, other) by {
                                assert(has_key(pairs, other));
                                let k = choose|k: int| 0 <= k < pairs.len() && pairs[k].0 == other;
                            }
                            assert(least_repeated(m, n));
                        }
                        Err(repeated(self.options[u].0.as_str()))
                    },
                    None => {
                        proof {
                            assert forall|x: Seq<char>| #[trigger] m.contains_key(x) implies values_of(m, x).len() <= 1 by {
                                assert(has_key(pairs, x));
                                let k = choose|k: int| 0 <= k < pairs.len() && pairs[k].0 == x;
                                assert(values_of(m, pairs[k].0).len() <= 1);
                            }
                        }
                        Ok(())
                    },
                }
            },
        }
    }
}

/// Whether `name` is one of `allowed`.
fn is_in(allowed: &[&str], name: &[char]) -> (b: bool)
    ensures
        b == is_allowed(allowed@, name@),
{
    let mut k: usize = 0;
    while k < allowed.len()
        invariant
            k <= allowed@.len(),
            forall|i: int| 0 <= i < k ==> (#[trigger] allowed@[i])@ != name@,
        decreases allowed@.len() - k,
    {
        let candidate = chars_of(allowed[k]);
        if crate::text::same_chars(&candidate, name) {
            return true;
        }
        k = k + 1;
    }
    false
}

fn repeated(name: &str) -> (e: String)
    ensures
        e@ == repeated_message(name@),
{
    let mut m = chars_of("option --");
    append_chars(&mut m, &chars_of(name));
    append_chars(&mut m, &chars_of(" may only be supplied once"));
    string_of(&m)
}

/// Adds `value` to the values of the option `name`.
fn add_option(options: &mut Vec<(String, Vec<String>)>, name: String, value: String)
    requires
        keys_distinct(option_pairs(old(options)@)),
    ensures
        keys_distinct(option_pairs(final(options)@)),
        seq_map(option_pairs(final(options)@)) == seq_map(option_pairs(old(options)@)).insert(
            name@,
            values_of(seq_map(option_pairs(old(options)@)), name@).push(value@),
        ),
{
    let ghost old_pairs = option_pairs(options@);
    proof {
        lemma_seq_map(old_pairs);
    }
    let mut j: usize = 0;
    while j < options.len()
        invariant
            j <= options@.len(),
            old_pairs == option_pairs(options@),
            old_pairs == option_pairs(old(options)@),
            keys_distinct(old_pairs),
            forall|k: int| 0 <= k < j ==> (#[trigger] options@[k]).0@ != name@,
        decreases options@.len() - j,
    {
        if options[j].0 == name {
            let (n, mut values) = options.remove(j);
            let ghost before = values@;
            assert(old_pairs[j as int] == (name@, texts(before)));
            values.push(value);
            assert(texts(values@) =~= texts(before).push(value@));
            options.insert(j, (n, values));
            proof {
                assert(option_pairs(options@) =~= old_pairs.update(j as int, (old_pairs[j as int].0, texts(values@))));
                lemma_seq_map_update(old_pairs, j as int, texts(values@));
                lemma_seq_map(old_pairs);
                assert(has_key(old_pairs, name@));
                assert(seq_map(old_pairs)[old_pairs[j as int].0] == old_pairs[j as int].1);
                assert(values_of(seq_map(old_pairs), name@) == texts(before));
            }
            return;
        }
        j = j + 1;
    }
    proof {
        assert(!has_key(old_pairs, name@)) by {
            if has_key(old_pairs, name@) {
                let k = choose|k: int| 0 <= k < old_pairs.len() && old_pairs[k].0 == name@;
                assert(options@[k].0@ == name@);
            }
        }
    }
    let ghost x = (name@, seq![value@]);
    let mut values: Vec<String> = Vec::new();
    values.push(value);
    assert(texts(values@) =~= seq![value@]);
    options.push((name, values));
    proof {
        assert(option_pairs(options@) =~= old_pairs.insert(old_pairs.len() as int, x));
        lemma_seq_map_insert(old_pairs, old_pairs.len() as int, x);
        assert(values_of(seq_map(old_pairs), x.0) =~= Seq::<Seq<char>>::empty());
        assert(Seq::<Seq<char>>::empty().push(x.1[0]) =~= x.1);
    }
}

} // verus!
