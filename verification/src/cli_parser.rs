use crate::is_long_flag;
use vstd::prelude::*;

verus! {

/// The command selected by the first argument token.
#[derive(Debug, Eq, Hash, PartialEq, Clone, Copy, Structural)]
pub enum CommandType {
    List,
    Start,
    Stop,
    Configure,
    Help,
}

/// Which command a command token selects: an exact match against one of the
/// four recognized words; anything else falls back to `Help`.
pub open spec fn command_of(tok: Seq<char>) -> CommandType {
    if tok == "list"@ {
        CommandType::List
    } else if tok == "start"@ {
        CommandType::Start
    } else if tok == "stop"@ {
        CommandType::Stop
    } else if tok == "configure"@ {
        CommandType::Configure
    } else {
        CommandType::Help
    }
}

fn command_of_exec(tok: &String) -> (c: CommandType)
    ensures
        c == command_of(tok@),
{
    if *tok == String::from_str("list") {
        CommandType::List
    } else if *tok == String::from_str("start") {
        CommandType::Start
    } else if *tok == String::from_str("stop") {
        CommandType::Stop
    } else if *tok == String::from_str("configure") {
        CommandType::Configure
    } else {
        CommandType::Help
    }
}

/// How a parse can fail, carrying the offending token.
#[derive(Debug, PartialEq, Eq)]
pub enum CliError {
    InvalidOption(String),
    MissingOptionValue(String),
}

/// The mathematical shape of a parse failure: the variant and the offending
/// token as a character sequence.
pub enum CliErrorView {
    InvalidOption(Seq<char>),
    MissingOptionValue(Seq<char>),
}

impl View for CliError {
    type V = CliErrorView;

    open spec fn view(&self) -> CliErrorView {
        match self {
            CliError::InvalidOption(t) => CliErrorView::InvalidOption(t@),
            CliError::MissingOptionValue(t) => CliErrorView::MissingOptionValue(t@),
        }
    }
}

impl CliError {
    /// A printable description of the failure, naming the offending token.
    pub fn message(&self) -> (m: String)
        ensures
            match self {
                CliError::InvalidOption(t) => m@ == "Invalid option: "@ + t@,
                CliError::MissingOptionValue(t) => m@ == "Missing value for option: "@ + t@,
            },
    {
        match self {
            CliError::InvalidOption(t) => {
                let mut m = String::from_str("Invalid option: ");
                m.append(t.as_str());
                m
            },
            CliError::MissingOptionValue(t) => {
                let mut m = String::from_str("Missing value for option: ");
                m.append(t.as_str());
                m
            },
        }
    }
}

/// The mapping a sequence of key/value pairs stands for, later entries
/// overriding earlier ones.
pub open spec fn pairs_map(s: Seq<(String, String)>) -> Map<Seq<char>, Seq<char>>
    decreases s.len(),
{
    if s.len() == 0 {
        Map::empty()
    } else {
        pairs_map(s.drop_last()).insert(s.last().0@, s.last().1@)
    }
}

/// No two entries share a key.
pub open spec fn unique_keys(s: Seq<(String, String)>) -> bool {
    forall|i: int, j: int| 0 <= i < j < s.len() ==> s[i].0@ != s[j].0@
}

/// The allow-list a sequence of (command, canonical name) entries stands for.
pub open spec fn allowed_set(s: Seq<(CommandType, String)>) -> Set<(CommandType, Seq<char>)>
    decreases s.len(),
{
    if s.len() == 0 {
        Set::empty()
    } else {
        allowed_set(s.drop_last()).insert((s.last().0, s.last().1@))
    }
}

proof fn lemma_pairs_map_domain(s: Seq<(String, String)>, k: Seq<char>)
    ensures
        pairs_map(s).contains_key(k) <==> exists|i: int| 0 <= i < s.len() && s[i].0@ == k,
    decreases s.len(),
{
    if s.len() > 0 {
        lemma_pairs_map_domain(s.drop_last(), k);
        if pairs_map(s).contains_key(k) {
            if s.last().0@ != k {
                let i = choose|i: int| 0 <= i < s.drop_last().len() && s.drop_last()[i].0@ == k;
                assert(s[i].0@ == k);
            } else {
                assert(s[s.len() - 1].0@ == k);
            }
        }
        if exists|i: int| 0 <= i < s.len() && s[i].0@ == k {
            let i = choose|i: int| 0 <= i < s.len() && s[i].0@ == k;
            if i < s.len() - 1 {
                assert(s.drop_last()[i].0@ == k);
            }
        }
    }
}

proof fn lemma_pairs_map_at(s: Seq<(String, String)>, i: int)
    requires
        unique_keys(s),
        0 <= i < s.len(),
    ensures
        pairs_map(s).contains_key(s[i].0@),
        pairs_map(s)[s[i].0@] == s[i].1@,
    decreases s.len(),
{
    if i == s.len() - 1 {
        assert(pairs_map(s) == pairs_map(s.drop_last()).insert(s.last().0@, s.last().1@));
    } else {
        assert(unique_keys(s.drop_last()));
        assert(s.drop_last()[i] == s[i]);
        lemma_pairs_map_at(s.drop_last(), i);
        assert(s[i].0@ != s.last().0@);
    }
}

proof fn lemma_pairs_map_push(s: Seq<(String, String)>, p: (String, String))
    ensures
        pairs_map(s.push(p)) == pairs_map(s).insert(p.0@, p.1@),
{
    assert(s.push(p).drop_last() =~= s);
    assert(s.push(p).last() == p);
}

proof fn lemma_pairs_map_remove(s: Seq<(String, String)>, j: int)
    requires
        unique_keys(s),
        0 <= j < s.len(),
    ensures
        pairs_map(s.remove(j)) == pairs_map(s).remove(s[j].0@),
        unique_keys(s.remove(j)),
        !pairs_map(s.remove(j)).contains_key(s[j].0@),
    decreases s.len(),
{
    let k = s[j].0@;
    assert(unique_keys(s.remove(j)));
    assert forall|i: int| 0 <= i < s.remove(j).len() implies s.remove(j)[i].0@ != k by {
        if i < j {
            assert(s.remove(j)[i] == s[i]);
        } else {
            assert(s.remove(j)[i] == s[i + 1]);
        }
    }
    lemma_pairs_map_domain(s.remove(j), k);
    if j == s.len() - 1 {
        assert(s.remove(j) =~= s.drop_last());
        lemma_pairs_map_domain(s.drop_last(), k);
        assert(!pairs_map(s.drop_last()).contains_key(k));
        assert(pairs_map(s).remove(k) =~= pairs_map(s.drop_last()));
    } else {
        let t = s.drop_last();
        assert(unique_keys(t));
        assert(t[j] == s[j]);
        lemma_pairs_map_remove(t, j);
        assert(s.remove(j).drop_last() =~= t.remove(j));
        assert(s.remove(j).last() == s.last());
        assert(pairs_map(s.remove(j)) == pairs_map(t.remove(j)).insert(s.last().0@, s.last().1@));
        assert(s.last().0@ != k);
        assert(pairs_map(t).remove(k).insert(s.last().0@, s.last().1@) =~= pairs_map(t).insert(
            s.last().0@,
            s.last().1@,
        ).remove(k));
    }
}

proof fn lemma_allowed_set_members(s: Seq<(CommandType, String)>, x: (CommandType, Seq<char>))
    ensures
        allowed_set(s).contains(x) <==> exists|i: int|
            0 <= i < s.len() && s[i].0 == x.0 && s[i].1@ == x.1,
    decreases s.len(),
{
    if s.len() > 0 {
        lemma_allowed_set_members(s.drop_last(), x);
        if allowed_set(s).contains(x) {
            if (s.last().0, s.last().1@) != x {
                let i = choose|i: int|
                    0 <= i < s.drop_last().len() && s.drop_last()[i].0 == x.0
                        && s.drop_last()[i].1@ == x.1;
                assert(s[i].0 == x.0 && s[i].1@ == x.1);
            } else {
                assert(s[s.len() - 1].0 == x.0 && s[s.len() - 1].1@ == x.1);
            }
        }
        if exists|i: int| 0 <= i < s.len() && s[i].0 == x.0 && s[i].1@ == x.1 {
            let i = choose|i: int| 0 <= i < s.len() && s[i].0 == x.0 && s[i].1@ == x.1;
            if i < s.len() - 1 {
                assert(s.drop_last()[i].0 == x.0 && s.drop_last()[i].1@ == x.1);
            }
        }
    }
}

/// Looks a key up in a key/value pair vector with unique keys.
fn pairs_lookup(pairs: &Vec<(String, String)>, key: &String) -> (r: Option<String>)
    requires
        unique_keys(pairs@),
    ensures
        match r {
            Some(v) => pairs_map(pairs@).contains_key(key@) && v@ == pairs_map(pairs@)[key@],
            None => !pairs_map(pairs@).contains_key(key@),
        },
{
    let mut j: usize = 0;
    while j < pairs.len()
        invariant
            unique_keys(pairs@),
            0 <= j <= pairs@.len(),
            forall|t: int| 0 <= t < j ==> pairs@[t].0@ != key@,
        decreases pairs@.len() - j,
    {
        if pairs[j].0 == *key {
            proof {
                lemma_pairs_map_at(pairs@, j as int);
            }
            return Some(pairs[j].1.clone());
        }
        j = j + 1;
    }
    proof {
        lemma_pairs_map_domain(pairs@, key@);
    }
    None
}

/// Inserts a key/value pair into a pair vector with unique keys, replacing
/// the entry with the same key if one is present.
fn pairs_upsert(pairs: &mut Vec<(String, String)>, key: String, value: String)
    requires
        unique_keys(old(pairs)@),
    ensures
        unique_keys(final(pairs)@),
        pairs_map(final(pairs)@) == pairs_map(old(pairs)@).insert(key@, value@),
{
    let ghost s0 = pairs@;
    let mut j: usize = 0;
    while j < pairs.len()
        invariant
            old(pairs)@ == s0,
            pairs@ == s0,
            unique_keys(s0),
            0 <= j <= s0.len(),
            forall|t: int| 0 <= t < j ==> s0[t].0@ != key@,
        decreases s0.len() - j,
    {
        if pairs[j].0 == key {
            let ghost kv = (key, value);
            let ghost removed = s0.remove(j as int);
            proof {
                lemma_pairs_map_remove(s0, j as int);
                lemma_pairs_map_push(removed, kv);
                assert(pairs_map(s0).remove(kv.0@).insert(kv.0@, kv.1@) =~= pairs_map(s0).insert(
                    kv.0@,
                    kv.1@,
                ));
            }
            pairs.remove(j);
            assert(pairs@ == removed);
            pairs.push((key, value));
            proof {
                assert(pairs@ == removed.push(kv));
                assert(pairs_map(pairs@) == pairs_map(removed).insert(kv.0@, kv.1@));
                assert(s0[j as int].0@ == kv.0@);
                assert(pairs_map(pairs@) == pairs_map(s0).insert(kv.0@, kv.1@));
                assert forall|a: int, b: int|
                    0 <= a < b < pairs@.len() implies pairs@[a].0@ != pairs@[b].0@ by {
                    if b < pairs@.len() - 1 {
                        assert(pairs@[a] == removed[a] && pairs@[b] == removed[b]);
                    } else {
                        assert(pairs@[a] == removed[a]);
                    }
                }
            }
            return ;
        }
        j = j + 1;
    }
    proof {
        lemma_pairs_map_domain(s0, key@);
        lemma_pairs_map_push(s0, (key, value));
    }
    pairs.push((key, value));
    assert forall|a: int, b: int|
        0 <= a < b < pairs@.len() implies pairs@[a].0@ != pairs@[b].0@ by {
        if b < pairs@.len() - 1 {
            assert(pairs@[a] == s0[a] && pairs@[b] == s0[b]);
        } else {
            assert(pairs@[a] == s0[a]);
        }
    }
}

/// One registration: a command, a short alias, and the canonical long name
/// the alias stands for.
#[derive(Debug)]
pub struct CliOption {
    command: CommandType,
    short_name: String,
    long_name: String,
}

impl CliOption {
    /// The command this registration belongs to.
    pub closed spec fn command_view(&self) -> CommandType {
        self.command
    }

    /// The short alias being registered.
    pub closed spec fn short_view(&self) -> Seq<char> {
        self.short_name@
    }

    /// The canonical long name the alias resolves to.
    pub closed spec fn long_view(&self) -> Seq<char> {
        self.long_name@
    }

    pub fn new(command: CommandType, short_name: &str, long_name: &str) -> (o: Self)
        ensures
            o.command_view() == command,
            o.short_view() == short_name@,
            o.long_view() == long_name@,
    {
        Self {
            command,
            short_name: String::from_str(short_name),
            long_name: String::from_str(long_name),
        }
    }
}

/// The option schema: the allow-list of (command, canonical name) pairs and
/// the mapping from short alias to canonical long name.
#[derive(Debug)]
pub struct CliOptions {
    valid_options: Vec<(CommandType, String)>,
    short_to_long: Vec<(String, String)>,
}

impl CliOptions {
    /// Every short alias maps to exactly one canonical name.
    pub closed spec fn wf(&self) -> bool {
        unique_keys(self.short_to_long@)
    }

    /// The alias-to-canonical-name mapping.
    pub closed spec fn alias_view(&self) -> Map<Seq<char>, Seq<char>> {
        pairs_map(self.short_to_long@)
    }

    /// The allow-list of (command, canonical name) pairs.
    pub closed spec fn allowed_view(&self) -> Set<(CommandType, Seq<char>)> {
        allowed_set(self.valid_options@)
    }

    /// What a flag token resolves to: itself when it carries the long-flag
    /// prefix, otherwise whatever the alias mapping gives it, if anything.
    pub open spec fn resolve_view(&self, arg: Seq<char>) -> Option<Seq<char>> {
        if is_long_flag(arg) {
            Some(arg)
        } else if self.alias_view().contains_key(arg) {
            Some(self.alias_view()[arg])
        } else {
            None
        }
    }

    /// The canonical name a flag token stands for under the given command,
    /// or nothing when the token does not resolve or the resolved name is
    /// not on the command's allow-list.
    pub open spec fn validate_view(&self, command: CommandType, arg: Seq<char>) -> Option<
        Seq<char>,
    > {
        match self.resolve_view(arg) {
            Some(long) => if self.allowed_view().contains((command, long)) {
                Some(long)
            } else {
                None
            },
            None => None,
        }
    }

    pub fn new() -> (o: Self)
        ensures
            o.wf(),
            o.alias_view() == Map::<Seq<char>, Seq<char>>::empty(),
            o.allowed_view() == Set::<(CommandType, Seq<char>)>::empty(),
    {
        Self { valid_options: Vec::new(), short_to_long: Vec::new() }
    }

    /// Registers an option: the (command, long name) pair joins the
    /// allow-list, and the alias mapping gains the short name, overwriting
    /// any earlier registration of the same short name (last write wins).
    pub fn add_option(&mut self, option: CliOption)
        requires
            old(self).wf(),
        ensures
            final(self).wf(),
            final(self).alias_view() == old(self).alias_view().insert(
                option.short_view(),
                option.long_view(),
            ),
            final(self).allowed_view() == old(self).allowed_view().insert(
                (option.command_view(), option.long_view()),
            ),
    {
        let CliOption { command, short_name, long_name } = option;
        let ghost v0 = self.valid_options@;
        let mut present = false;
        let mut j: usize = 0;
        while j < self.valid_options.len()
            invariant
                self.valid_options@ == v0,
                0 <= j <= v0.len(),
                present <==> exists|t: int|
                    0 <= t < j && v0[t].0 == command && v0[t].1@ == long_name@,
            decreases v0.len() - j,
        {
            if self.valid_options[j].0 == command && self.valid_options[j].1 == long_name {
                present = true;
            }
            j = j + 1;
        }
        proof {
            lemma_allowed_set_members(v0, (command, long_name@));
        }
        if present {
            proof {
                assert(allowed_set(v0).insert((command, long_name@)) =~= allowed_set(v0));
            }
        } else {
            let pair = (command, long_name.clone());
            proof {
                assert(v0.push(pair).drop_last() =~= v0);
            }
            self.valid_options.push(pair);
        }
        pairs_upsert(&mut self.short_to_long, short_name, long_name);
    }

    /// Decides whether a flag token is acceptable for the given command, and
    /// if so hands back the canonical long name it stands for; otherwise the
    /// token is an invalid option.
    pub fn validate(&self, arg: String, command: &CommandType) -> (r: Result<String, CliError>)
        requires
            self.wf(),
        ensures
            match r {
                Ok(long) => self.validate_view(*command, arg@) == Some(long@),
                Err(e) => self.validate_view(*command, arg@) is None && e@
                    == CliErrorView::InvalidOption(arg@),
            },
    {
        let long_name: Option<String> = if is_long_flag_exec(&arg) {
            Some(arg.clone())
        } else {
            pairs_lookup(&self.short_to_long, &arg)
        };
        match long_name {
            Some(long) => {
                let mut j: usize = 0;
                while j < self.valid_options.len()
                    invariant
                        self.wf(),
                        self.resolve_view(arg@) == Some(long@),
                        0 <= j <= self.valid_options@.len(),
                        forall|t: int|
                            0 <= t < j ==> !(self.valid_options@[t].0 == *command
                                && self.valid_options@[t].1@ == long@),
                    decreases self.valid_options@.len() - j,
                {
                    if self.valid_options[j].0 == *command && self.valid_options[j].1 == long {
                        proof {
                            lemma_allowed_set_members(self.valid_options@, (*command, long@));
                        }
                        return Ok(long);
                    }
                    j = j + 1;
                }
                proof {
                    lemma_allowed_set_members(self.valid_options@, (*command, long@));
                }
                Err(CliError::InvalidOption(arg))
            },
            None => Err(CliError::InvalidOption(arg)),
        }
    }
}

fn is_long_flag_exec(s: &String) -> (r: bool)
    ensures
        r == is_long_flag(s@),
{
    let sl = s.as_str();
    sl.unicode_len() >= 2 && sl.get_char(0) == '-' && sl.get_char(1) == '-'
}

/// A decoded invocation: the selected command and the canonical-name-to-value
/// option mapping.
#[derive(Debug)]
pub struct Command {
    pub command: CommandType,
    pub options: Vec<(String, String)>,
}

impl Command {
    /// The option mapping, canonical long name to value.
    pub open spec fn options_map(&self) -> Map<Seq<char>, Seq<char>> {
        pairs_map(self.options@)
    }

    /// The stored options carry each canonical name at most once.
    pub open spec fn options_wf(&self) -> bool {
        unique_keys(self.options@)
    }

    pub fn new(command: CommandType, options: Vec<(String, String)>) -> (c: Self)
        ensures
            c.command == command,
            c.options@ == options@,
    {
        Self { command, options }
    }

    /// The value stored under a canonical name, if any.
    pub fn get(&self, key: &str) -> (r: Option<&String>)
        requires
            self.options_wf(),
        ensures
            match r {
                Some(v) => self.options_map().contains_key(key@) && v@ == self.options_map()[key@],
                None => !self.options_map().contains_key(key@),
            },
    {
        let key_owned = String::from_str(key);
        let mut j: usize = 0;
        while j < self.options.len()
            invariant
                self.options_wf(),
                key_owned@ == key@,
                0 <= j <= self.options@.len(),
                forall|t: int| 0 <= t < j ==> self.options@[t].0@ != key@,
            decreases self.options@.len() - j,
        {
            if self.options[j].0 == key_owned {
                proof {
                    lemma_pairs_map_at(self.options@, j as int);
                }
                return Some(&self.options[j].1);
            }
            j = j + 1;
        }
        proof {
            lemma_pairs_map_domain(self.options@, key@);
        }
        None
    }
}

/// What parsing an argument vector yields under a given schema: the selected
/// command and option mapping, or the first failure.
pub open spec fn parse_view(schema: CliOptions, args: Seq<Seq<char>>) -> Result<
    (CommandType, Map<Seq<char>, Seq<char>>),
    CliErrorView,
> {
    if args.len() <= 1 {
        Ok((CommandType::Help, Map::empty()))
    } else {
        parse_opts_view(schema, command_of(args[1]), args.skip(2), Map::empty())
    }
}

/// Consumes flag tokens strictly in (flag, value) pairs, left to right,
/// storing canonical name to value; the first flag that does not validate
/// aborts the parse, as does a flag with no following value.
pub open spec fn parse_opts_view(
    schema: CliOptions,
    command: CommandType,
    toks: Seq<Seq<char>>,
    acc: Map<Seq<char>, Seq<char>>,
) -> Result<(CommandType, Map<Seq<char>, Seq<char>>), CliErrorView>
    decreases toks.len(),
{
    if toks.len() == 0 {
        Ok((command, acc))
    } else {
        match schema.validate_view(command, toks[0]) {
            None => Err(CliErrorView::InvalidOption(toks[0])),
            Some(long) => if toks.len() == 1 {
                Err(CliErrorView::MissingOptionValue(toks[0]))
            } else {
                parse_opts_view(schema, command, toks.skip(2), acc.insert(long, toks[1]))
            },
        }
    }
}

/// Turns an argument vector into a `Command`, rejecting any flag not
/// registered for the selected command.
pub struct CliParser {
    valid_options: CliOptions,
}

impl CliParser {
    /// The schema the parser validates against.
    pub closed spec fn schema(&self) -> CliOptions {
        self.valid_options
    }

    pub fn new(valid_options: CliOptions) -> (p: Self)
        ensures
            p.schema() == valid_options,
    {
        Self { valid_options }
    }

    /// Decodes the full argument vector (program name at index 0). With no
    /// command token the result is `Help` with no options; an unrecognized
    /// command token also selects `Help` and is not an error. Remaining
    /// tokens are consumed in (flag, value) pairs; the first invalid flag or
    /// flag without a value aborts the parse.
    pub fn parse(&self, args: Vec<String>) -> (r: Result<Command, CliError>)
        requires
            self.schema().wf(),
            args@.len() >= 1,
        ensures
            match r {
                Ok(c) => parse_view(self.schema(), args.deep_view()) matches Ok(p) && c.command
                    == p.0 && c.options_map() == p.1 && c.options_wf(),
                Err(e) => parse_view(self.schema(), args.deep_view()) matches Err(ev) && e@ == ev,
            },
    {
        let ghost dv = args.deep_view();
        if args.len() == 1 {
            let c = Command { command: CommandType::Help, options: Vec::new() };
            assert(c.options@ =~= Seq::<(String, String)>::empty());
            return Ok(c);
        }
        let command = command_of_exec(&args[1]);
        proof {
            assert(dv[1] == args@[1]@);
        }
        let mut options: Vec<(String, String)> = Vec::new();
        assert(options@ =~= Seq::<(String, String)>::empty());
        let mut i: usize = 2;
        while i < args.len()
            invariant
                self.schema().wf(),
                dv == args.deep_view(),
                args@.len() >= 2,
                2 <= i <= args@.len(),
                dv.len() == args@.len(),
                command == command_of(dv[1]),
                unique_keys(options@),
                parse_opts_view(self.schema(), command, dv.skip(2), Map::empty())
                    == parse_opts_view(
                    self.schema(),
                    command,
                    dv.skip(i as int),
                    pairs_map(options@),
                ),
            decreases args@.len() - i,
        {
            let key = args[i].clone();
            proof {
                assert(dv[i as int] == args@[i as int]@);
                assert(dv.skip(i as int)[0] == dv[i as int]);
            }
            match self.valid_options.validate(key.clone(), &command) {
                Err(e) => {
                    return Err(e);
                },
                Ok(long) => {
                    if i + 1 == args.len() {
                        return Err(CliError::MissingOptionValue(key));
                    }
                    let value = args[i + 1].clone();
                    proof {
                        assert(dv[i as int + 1] == args@[i as int + 1]@);
                        assert(dv.skip(i as int)[1] == dv[i as int + 1]);
                        assert(dv.skip(i as int).skip(2) =~= dv.skip(i as int + 2));
                    }
                    pairs_upsert(&mut options, long, value);
                    i = i + 2;
                },
            }
        }
        proof {
            assert(dv.skip(i as int) =~= Seq::<Seq<char>>::empty());
        }
        Ok(Command { command, options })
    }
}

/// For every registered (command, short alias, long name) triple whose alias
/// does not itself carry the long-flag prefix, parsing
/// `<command> <shortAlias> <value>` stores the value under the long name.
pub proof fn lemma_parse_short_alias(
    schema: CliOptions,
    prog: Seq<char>,
    tok: Seq<char>,
    short: Seq<char>,
    long: Seq<char>,
    value: Seq<char>,
)
    requires
        !is_long_flag(short),
        schema.alias_view().contains_key(short),
        schema.alias_view()[short] == long,
        schema.allowed_view().contains((command_of(tok), long)),
    ensures
        parse_view(schema, seq![prog, tok, short, value]) == Ok::<
            (CommandType, Map<Seq<char>, Seq<char>>),
            CliErrorView,
        >((command_of(tok), map![long => value])),
{
    let args = seq![prog, tok, short, value];
    assert(args.len() == 4);
    assert(args[1] == tok);
    let cmd = command_of(tok);
    let toks = args.skip(2);
    assert(toks =~= seq![short, value]);
    assert(toks[0] == short && toks[1] == value);
    assert(schema.validate_view(cmd, short) == Some(long));
    assert(toks.skip(2) =~= Seq::<Seq<char>>::empty());
    let m1 = Map::<Seq<char>, Seq<char>>::empty().insert(long, value);
    assert(parse_opts_view(schema, cmd, toks.skip(2), m1) == Ok::<
        (CommandType, Map<Seq<char>, Seq<char>>),
        CliErrorView,
    >((cmd, m1)));
    assert(parse_opts_view(schema, cmd, toks, Map::empty()) == Ok::<
        (CommandType, Map<Seq<char>, Seq<char>>),
        CliErrorView,
    >((cmd, m1)));
    assert(m1 =~= map![long => value]);
}

/// For every registered long name, parsing `<command> <longName> <value>`
/// stores the value under the long name.
pub proof fn lemma_parse_long_name(
    schema: CliOptions,
    prog: Seq<char>,
    tok: Seq<char>,
    long: Seq<char>,
    value: Seq<char>,
)
    requires
        is_long_flag(long),
        schema.allowed_view().contains((command_of(tok), long)),
    ensures
        parse_view(schema, seq![prog, tok, long, value]) == Ok::<
            (CommandType, Map<Seq<char>, Seq<char>>),
            CliErrorView,
        >((command_of(tok), map![long => value])),
{
    let args = seq![prog, tok, long, value];
    assert(args.len() == 4);
    assert(args[1] == tok);
    let cmd = command_of(tok);
    let toks = args.skip(2);
    assert(toks =~= seq![long, value]);
    assert(toks[0] == long && toks[1] == value);
    assert(schema.validate_view(cmd, long) == Some(long));
    assert(toks.skip(2) =~= Seq::<Seq<char>>::empty());
    let m1 = Map::<Seq<char>, Seq<char>>::empty().insert(long, value);
    assert(parse_opts_view(schema, cmd, toks.skip(2), m1) == Ok::<
        (CommandType, Map<Seq<char>, Seq<char>>),
        CliErrorView,
    >((cmd, m1)));
    assert(parse_opts_view(schema, cmd, toks, Map::empty()) == Ok::<
        (CommandType, Map<Seq<char>, Seq<char>>),
        CliErrorView,
    >((cmd, m1)));
    assert(m1 =~= map![long => value]);
}

/// The long form of a registered option yields the same map entry as its
/// short form.
pub proof fn lemma_long_form_equals_short_form(
    schema: CliOptions,
    prog: Seq<char>,
    tok: Seq<char>,
    short: Seq<char>,
    long: Seq<char>,
    value: Seq<char>,
)
    requires
        !is_long_flag(short),
        is_long_flag(long),
        schema.alias_view().contains_key(short),
        schema.alias_view()[short] == long,
        schema.allowed_view().contains((command_of(tok), long)),
    ensures
        parse_view(schema, seq![prog, tok, long, value]) == parse_view(
            schema,
            seq![prog, tok, short, value],
        ),
{
    lemma_parse_short_alias(schema, prog, tok, short, long, value);
    lemma_parse_long_name(schema, prog, tok, long, value);
}

/// A flag that is not registered for the selected command is rejected as
/// `InvalidOption` carrying exactly the offending token, whatever follows it
/// and regardless of whether the flag is registered for another command.
pub proof fn lemma_parse_invalid_option(
    schema: CliOptions,
    prog: Seq<char>,
    tok: Seq<char>,
    flag: Seq<char>,
    rest: Seq<Seq<char>>,
)
    requires
        schema.validate_view(command_of(tok), flag) is None,
    ensures
        parse_view(schema, seq![prog, tok, flag] + rest) == Err::<
            (CommandType, Map<Seq<char>, Seq<char>>),
            CliErrorView,
        >(CliErrorView::InvalidOption(flag)),
{
    let args = seq![prog, tok, flag] + rest;
    assert(args[1] == tok);
    let toks = args.skip(2);
    assert(toks.len() == rest.len() + 1);
    assert(toks[0] == flag);
}

/// Parsing with only the program name yields `Help` and an empty option map.
pub proof fn lemma_parse_program_name_only(schema: CliOptions, prog: Seq<char>)
    ensures
        parse_view(schema, seq![prog]) == Ok::<
            (CommandType, Map<Seq<char>, Seq<char>>),
            CliErrorView,
        >((CommandType::Help, Map::empty())),
{
}

/// An unrecognized command token selects `Help`; it is not an error.
pub proof fn lemma_parse_unknown_command(schema: CliOptions, prog: Seq<char>, tok: Seq<char>)
    requires
        tok != "list"@,
        tok != "start"@,
        tok != "stop"@,
        tok != "configure"@,
    ensures
        command_of(tok) == CommandType::Help,
        parse_view(schema, seq![prog, tok]) == Ok::<
            (CommandType, Map<Seq<char>, Seq<char>>),
            CliErrorView,
        >((CommandType::Help, Map::empty())),
{
    let args = seq![prog, tok];
    assert(args.skip(2) =~= Seq::<Seq<char>>::empty());
}

/// The schema of this tool: `start` and `stop` each take `-n`/`--name` and
/// `-i`/`--instance`; `list` and `configure` take no flags.
pub fn build_parser() -> (p: CliParser)
    ensures
        p.schema().wf(),
        p.schema().alias_view() == map!["-n"@ => "--name"@, "-i"@ => "--instance"@],
        p.schema().allowed_view() == set![
            (CommandType::Start, "--name"@),
            (CommandType::Start, "--instance"@),
            (CommandType::Stop, "--name"@),
            (CommandType::Stop, "--instance"@),
        ],
{
    let mut options = CliOptions::new();
    options.add_option(CliOption::new(CommandType::Start, "-n", "--name"));
    options.add_option(CliOption::new(CommandType::Start, "-i", "--instance"));
    options.add_option(CliOption::new(CommandType::Stop, "-n", "--name"));
    options.add_option(CliOption::new(CommandType::Stop, "-i", "--instance"));
    proof {
        assert(options.alias_view() =~= map!["-n"@ => "--name"@, "-i"@ => "--instance"@]);
        assert(options.allowed_view() =~= set![
            (CommandType::Start, "--name"@),
            (CommandType::Start, "--instance"@),
            (CommandType::Stop, "--name"@),
            (CommandType::Stop, "--instance"@),
        ]);
    }
    CliParser::new(options)
}

} // verus!
