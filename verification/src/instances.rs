use crate::cli_parser::Command;
use vstd::prelude::*;

verus! {

/// A listed instance: its Name tag when it carries one, its id, and its
/// state name.
pub struct InstanceInfo {
    pub name: Option<String>,
    pub id: String,
    pub state: String,
}

/// How `start` and `stop` pick their target: by Name tag when `--name` was
/// given, by id when `--instance` was given, else interactively.
pub enum TargetChoice {
    ByName(String),
    ById(String),
    Interactive,
}

/// The shape of a target choice: the variant and the token it carries.
pub enum TargetChoiceView {
    ByName(Seq<char>),
    ById(Seq<char>),
    Interactive,
}

impl View for TargetChoice {
    type V = TargetChoiceView;

    open spec fn view(&self) -> TargetChoiceView {
        match self {
            TargetChoice::ByName(n) => TargetChoiceView::ByName(n@),
            TargetChoice::ById(i) => TargetChoiceView::ById(i@),
            TargetChoice::Interactive => TargetChoiceView::Interactive,
        }
    }
}

/// What target a command's options select: the `--name` value first, else
/// the `--instance` value, else an interactive selection.
pub open spec fn target_of(options: Map<Seq<char>, Seq<char>>) -> TargetChoiceView {
    if options.contains_key("--name"@) {
        TargetChoiceView::ByName(options["--name"@])
    } else if options.contains_key("--instance"@) {
        TargetChoiceView::ById(options["--instance"@])
    } else {
        TargetChoiceView::Interactive
    }
}

/// Decides which instance a `start` or `stop` command is aimed at.
pub fn choose_target(command: &Command) -> (t: TargetChoice)
    requires
        command.options_wf(),
    ensures
        t@ == target_of(command.options_map()),
{
    if let Some(name) = command.get("--name") {
        TargetChoice::ByName(name.clone())
    } else if let Some(id) = command.get("--instance") {
        TargetChoice::ById(id.clone())
    } else {
        TargetChoice::Interactive
    }
}

/// The id of the first listed instance whose Name tag is the given name.
pub open spec fn id_by_name(instances: Seq<InstanceInfo>, name: Seq<char>) -> Option<Seq<char>>
    decreases instances.len(),
{
    if instances.len() == 0 {
        None
    } else if instances[0].name matches Some(n) && n@ == name {
        Some(instances[0].id@)
    } else {
        id_by_name(instances.skip(1), name)
    }
}

/// Converts a name to an instance id if that name stands as the Name tag of
/// a listed instance; the first match wins.
pub fn find_instance_id_by_name(instances: &Vec<InstanceInfo>, name: &str) -> (r: Option<String>)
    ensures
        match r {
            Some(id) => id_by_name(instances@, name@) == Some(id@),
            None => id_by_name(instances@, name@) is None,
        },
{
    let name_owned = String::from_str(name);
    let mut j: usize = 0;
    proof {
        assert(instances@.skip(0) =~= instances@);
    }
    while j < instances.len()
        invariant
            name_owned@ == name@,
            0 <= j <= instances@.len(),
            id_by_name(instances@, name@) == id_by_name(instances@.skip(j as int), name@),
        decreases instances@.len() - j,
    {
        proof {
            assert(instances@.skip(j as int)[0] == instances@[j as int]);
            assert(instances@.skip(j as int).skip(1) =~= instances@.skip(j as int + 1));
        }
        if let Some(n) = &instances[j].name {
            if *n == name_owned {
                return Some(instances[j].id.clone());
            }
        }
        j = j + 1;
    }
    proof {
        assert(instances@.skip(instances@.len() as int) =~= Seq::<InstanceInfo>::empty());
    }
    None
}

/// A run of spaces.
pub open spec fn spaces(n: int) -> Seq<char>
    decreases n,
{
    if n <= 0 {
        Seq::empty()
    } else {
        spaces(n - 1).push(' ')
    }
}

/// Pads a cell value with spaces to the column width, the value centered and
/// any odd space going to the right.
pub fn pad_centered(s: &str, width: usize) -> (r: String)
    requires
        s@.len() <= width,
    ensures
        r@ == spaces((width - s@.len()) as int / 2) + s@ + spaces(
            (width - s@.len()) as int / 2 + (width - s@.len()) as int % 2,
        ),
{
    let n = s.unicode_len();
    let padding = width - n;
    let left = padding / 2;
    let right = padding / 2 + padding % 2;
    let mut buf: Vec<char> = Vec::new();
    push_spaces(&mut buf, left);
    crate::config::append_str_chars(&mut buf, s);
    push_spaces(&mut buf, right);
    let out = crate::config::string_from_chars(&buf);
    proof {
        assert(buf@ =~= spaces(left as int) + s@ + spaces(right as int));
    }
    out
}

fn push_spaces(buf: &mut Vec<char>, n: usize)
    ensures
        final(buf)@ == old(buf)@ + spaces(n as int),
{
    let mut i: usize = 0;
    while i < n
        invariant
            0 <= i <= n,
            buf@ == old(buf)@ + spaces(i as int),
        decreases n - i,
    {
        buf.push(' ');
        proof {
            assert(buf@ =~= old(buf)@ + spaces(i as int + 1));
        }
        i = i + 1;
    }
}

} // verus!
