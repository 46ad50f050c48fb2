//! Decisions of the benchmark front end: what was asked for on the command
//! line, which timer query stands for a pipeline stage, and which files of a
//! directory are scenes.

use vstd::prelude::*;
use vstd::string::*;
use crate::filter::{admits, name_admitted};

verus! {

/// Arguments of the built-in test scenes.
pub struct VelloTestScenesArgs {
    /// Comma separated list of names to filter on.
    pub matches: Option<String>,
}

/// Arguments of a directory of SVG files.
pub struct SvgArgs {
    pub directory: String,
    /// Comma separated list of names to filter on.
    pub matches: Option<String>,
}

/// Where the scenes to measure come from.
pub enum Commands {
    VelloTestScenes(VelloTestScenesArgs),
    Svg(SvgArgs),
}

/// A parsed command line.
pub struct Cli {
    /// If present, timings are restricted to this pipeline stage; otherwise
    /// they cover the whole pipeline.
    stage: Option<String>,
    command: Commands,
}

impl Commands {
    /// What is appended to a scene's name in the report.
    pub fn suffix(&self) -> (r: &'static str)
        ensures
            r@ == (match self {
                Commands::VelloTestScenes(_) => ""@,
                Commands::Svg(_) => ".svg"@,
            }),
    {
        match self {
            Commands::VelloTestScenes(_) => "",
            Commands::Svg(_) => ".svg",
        }
    }

    /// The name filter given with the command, if any.
    pub fn matches(&self) -> (r: &Option<String>)
        ensures
            *r == (match self {
                Commands::VelloTestScenes(args) => args.matches,
                Commands::Svg(args) => args.matches,
            }),
    {
        match self {
            Commands::VelloTestScenes(args) => &args.matches,
            Commands::Svg(args) => &args.matches,
        }
    }
}

impl Cli {
    pub closed spec fn spec_stage(&self) -> Option<String> {
        self.stage
    }

    pub closed spec fn spec_command(&self) -> Commands {
        self.command
    }

    pub fn new(stage: Option<String>, command: Commands) -> (cli: Cli)
        ensures
            cli.spec_stage() == stage,
            cli.spec_command() == command,
    {
        Cli { stage, command }
    }

    pub fn stage(&self) -> (r: &Option<String>)
        ensures
            *r == self.spec_stage(),
    {
        &self.stage
    }

    pub fn command(&self) -> (r: &Commands)
        ensures
            *r == self.spec_command(),
    {
        &self.command
    }
}

/// The timer query that stands for a stage within one top-level query.
#[derive(Clone, Copy, Debug, PartialEq, Eq, Structural)]
pub enum StageHit {
    /// The top-level query itself.
    Own,
    /// The nested query at this index.
    Nested(usize),
}

/// Picks the query that times `stage`. A query with nested queries is
/// represented by the last nested one labelled `stage`; a query without is
/// taken itself if it carries that label.
pub fn select_stage(label: &String, nested: &Vec<String>, stage: &String) -> (r: Option<StageHit>)
    ensures
        match r {
            Some(StageHit::Nested(i)) => {
                &&& i < nested@.len()
                &&& nested@[i as int]@ == stage@
                &&& forall|j: int| i < j < nested@.len() ==> (#[trigger] nested@[j])@ != stage@
            },
            Some(StageHit::Own) => nested@.len() == 0 && label@ == stage@,
            None => {
                &&& nested@.len() == 0 ==> label@ != stage@
                &&& forall|j: int| 0 <= j < nested@.len() ==> (#[trigger] nested@[j])@ != stage@
            },
        },
{
    if nested.len() == 0 {
        if *label == *stage {
            Some(StageHit::Own)
        } else {
            None
        }
    } else {
        let mut i: usize = nested.len();
        while i > 0
            invariant
                i <= nested@.len(),
                forall|j: int| i <= j < nested@.len() ==> (#[trigger] nested@[j])@ != stage@,
            decreases i,
        {
            i = i - 1;
            if nested[i] == *stage {
                return Some(StageHit::Nested(i));
            }
        }
        None
    }
}

/// The characters `.svg`.
pub open spec fn svg_extension() -> Seq<char> {
    seq!['.', 's', 'v', 'g']
}

/// The name has a stem and ends in `.svg`: `a.svg` does, the hidden file
/// `.svg`, which has no extension, does not.
pub open spec fn has_svg_extension(name: Seq<char>) -> bool {
    &&& name.len() > 4
    &&& name.subrange(name.len() - 4, name.len() as int) == svg_extension()
}

/// Tells whether a file name is that of an SVG file.
pub fn is_svg_file_name(name: &str) -> (r: bool)
    ensures
        r == has_svg_extension(name@),
{
    let n = name.unicode_len();
    if n <= 4 {
        return false;
    }
    let r = name.get_char(n - 4) == '.' && name.get_char(n - 3) == 's' && name.get_char(n - 2)
        == 'v' && name.get_char(n - 1) == 'g';
    proof {
        let tail = name@.subrange(n - 4, n as int);
        if r {
            assert(tail =~= svg_extension());
        } else {
            assert(tail[0] == name@[n - 4]);
            assert(tail[1] == name@[n - 3]);
            assert(tail[2] == name@[n - 2]);
            assert(tail[3] == name@[n - 1]);
        }
    }
    r
}

/// Tells whether a directory entry is among the scenes to measure: an SVG
/// file whose name passes the filter.
pub fn svg_file_selected(file_name: &str, matches: &Option<String>) -> (r: bool)
    ensures
        r == (has_svg_extension(file_name@) && admits(*matches, file_name@)),
{
    is_svg_file_name(file_name) && name_admitted(file_name, matches)
}

/// The positions, in order, of the names that pass the filter.
pub fn admitted_indices(names: &Vec<String>, matches: &Option<String>) -> (kept: Vec<usize>)
    ensures
        forall|k: int| 0 <= k < kept@.len() ==> (#[trigger] kept@[k]) < names@.len() && admits(
            *matches,
            names@[kept@[k] as int]@,
        ),
        forall|k: int, l: int| 0 <= k < l < kept@.len() ==> kept@[k] < kept@[l],
        forall|i: int|
            0 <= i < names@.len() && admits(*matches, (#[trigger] names@[i])@) ==> kept@.contains(
                i as usize,
            ),
{
    let mut kept: Vec<usize> = Vec::new();
    let mut i: usize = 0;
    while i < names.len()
        invariant
            i <= names@.len(),
            forall|k: int| 0 <= k < kept@.len() ==> (#[trigger] kept@[k]) < i && admits(
                *matches,
                names@[kept@[k] as int]@,
            ),
            forall|k: int, l: int| 0 <= k < l < kept@.len() ==> kept@[k] < kept@[l],
            forall|j: int|
                0 <= j < i && admits(*matches, (#[trigger] names@[j])@) ==> kept@.contains(j as usize),
        decreases names@.len() - i,
    {
        if name_admitted(names[i].as_str(), matches) {
            let ghost before = kept@;
            kept.push(i);
            proof {
                assert(kept@[before.len() as int] == i);
                assert(forall|k: int| 0 <= k < before.len() ==> kept@[k] == before[k]);
                assert forall|j: int|
                    0 <= j < i + 1 && admits(*matches, (#[trigger] names@[j])@) implies kept@.contains(
                    j as usize,
                ) by {
                    if j < i {
                        let k = choose|k: int| 0 <= k < before.len() && before[k] == j as usize;
                        assert(kept@[k] == j as usize);
                    }
                }
            }
        }
        i = i + 1;
    }
    kept
}

} // verus!
