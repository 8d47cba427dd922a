//! The command model: what one invocation asks the tool to do, as plain
//! data. Parsing the actual command line happens outside the crate and
//! hands a value of this model in.

use vstd::prelude::*;

verus! {

/// One invocation: a verbosity level and a command.
#[derive(Debug)]
pub struct Cli {
    /// How talkative logging should be; higher is louder.
    pub verbose: u8,
    /// The command to run.
    pub command: Command,
}

/// A group of containers to operate on: either named ones or all of them.
#[derive(Debug)]
pub struct ContainerSet {
    /// Names or identifiers of the containers.
    pub containers: Vec<String>,
    /// Whether to operate on every managed container instead.
    pub all: bool,
}

/// Everything one invocation can ask for.
#[derive(Debug)]
pub enum Command {
    /// Compile definitions into container images.
    Build { defs: Vec<String>, all: bool, force: bool },
    /// List all managed containers.
    Containers,
    /// Create a new container definition.
    Create { name: String },
    /// List all managed definitions.
    Definitions,
    /// Delete a container definition.
    Delete { name: String, yes: bool },
    /// Remove managed containers.
    Down(ContainerSet),
    /// Edit an existing container definition.
    Edit { name: String },
    /// Invoke the user's shell inside a container.
    Enter { name: String },
    /// Execute a command inside a new ephemeral container.
    Ephemeral { name: String, path: String, args: Vec<String> },
    /// Execute a command inside a container.
    Exec { name: String, path: String, args: Vec<String> },
    /// Restart managed containers.
    Restart(ContainerSet),
    /// Remove and re-create managed containers.
    Reup(ContainerSet),
    /// Start managed containers.
    Start(ContainerSet),
    /// Stop managed containers.
    Stop(ContainerSet),
    /// Create managed containers from images.
    Up { containers: Vec<String>, all: bool, replace: bool },
    /// Print the shared shell-initialization snippet.
    Init { shell: String },
    /// Translate one configuration directive inside a build.
    Config { operation: String, args: Vec<String> },
}

/// Splits an argument list at the first double-dash marker: the arguments
/// before it and those after it. Without a marker everything is leading and
/// the trail is empty.
pub fn split_double_dash(args: &Vec<String>) -> (r: (Vec<String>, Vec<String>))
    ensures
        ({
            let lead = r.0;
            let trail = r.1;
            if exists|i: int| 0 <= i < args@.len() && (#[trigger] args@[i])@ == "--"@ {
                let i = choose|i: int|
                    0 <= i < args@.len() && (#[trigger] args@[i])@ == "--"@ && forall|j: int|
                        0 <= j < i ==> (#[trigger] args@[j])@ != "--"@;
                lead.deep_view() == args.deep_view().subrange(0, i)
                    && trail.deep_view() == args.deep_view().subrange(
                    i + 1,
                    args@.len() as int,
                )
            } else {
                lead.deep_view() == args.deep_view() && trail.deep_view()
                    == Seq::<Seq<char>>::empty()
            }
        }),
{
    let marker = crate::text::chars_of("--");
    let mut i: usize = 0;
    while i < args.len()
        invariant
            marker@ == "--"@,
            i <= args@.len(),
            forall|j: int| 0 <= j < i ==> (#[trigger] args@[j])@ != "--"@,
        decreases args@.len() - i,
    {
        let ac = crate::text::chars_of(args[i].as_str());
        if crate::text::chars_eq(&ac, &marker) {
            let mut lead: Vec<String> = Vec::new();
            let mut j: usize = 0;
            while j < i
                invariant
                    j <= i < args@.len(),
                    lead.deep_view() =~= args.deep_view().subrange(0, j as int),
                decreases i - j,
            {
                let ghost old_lead = lead.deep_view();
                let s = args[j].clone();
                lead.push(s);
                j = j + 1;
                proof {
                    assert(args@[j - 1]@ == args.deep_view()[j - 1]);
                    assert(lead.deep_view() =~~= old_lead.push(args.deep_view()[j - 1]));
                    assert(lead.deep_view() =~~= args.deep_view().subrange(0, j as int));
                }
            }
            let mut trail: Vec<String> = Vec::new();
            let mut k: usize = i + 1;
            while k < args.len()
                invariant
                    i < k <= args@.len() || (k == i + 1),
                    i + 1 <= k <= args@.len(),
                    trail.deep_view() =~= args.deep_view().subrange(i + 1, k as int),
                decreases args@.len() - k,
            {
                let ghost old_trail = trail.deep_view();
                let s = args[k].clone();
                trail.push(s);
                k = k + 1;
                proof {
                    assert(args@[k - 1]@ == args.deep_view()[k - 1]);
                    assert(trail.deep_view() =~~= old_trail.push(args.deep_view()[k - 1]));
                    assert(trail.deep_view() =~~= args.deep_view().subrange(i + 1, k as int));
                }
            }
            proof {
                let c = choose|c: int|
                    0 <= c < args@.len() && (#[trigger] args@[c])@ == "--"@ && forall|j2: int|
                        0 <= j2 < c ==> (#[trigger] args@[j2])@ != "--"@;
                assert(args@[i as int]@ == "--"@);
                if c != i as int {
                    if c < i as int {
                        assert(args@[c]@ != "--"@);
                    } else {
                        assert(args@[i as int]@ != "--"@);
                    }
                    assert(false);
                }
            }
            return (lead, trail);
        }
        i = i + 1;
    }
    let mut lead: Vec<String> = Vec::new();
    let mut j: usize = 0;
    while j < args.len()
        invariant
            j <= args@.len(),
            lead.deep_view() =~= args.deep_view().subrange(0, j as int),
        decreases args@.len() - j,
    {
        let ghost old_lead = lead.deep_view();
        let s = args[j].clone();
        lead.push(s);
        j = j + 1;
        proof {
            assert(args@[j - 1]@ == args.deep_view()[j - 1]);
            assert(lead.deep_view() =~~= old_lead.push(args.deep_view()[j - 1]));
            assert(lead.deep_view() =~~= args.deep_view().subrange(0, j as int));
        }
    }
    let trail: Vec<String> = Vec::new();
    proof {
        assert(lead.deep_view() =~~= args.deep_view());
        assert(trail.deep_view() =~~= Seq::<Seq<char>>::empty());
    }
    (lead, trail)
}

} // verus!
