//! The public facade: configuration and the diff handle.

use vstd::prelude::*;

use crate::apply::{spec_apply_node, ApplyContext, ApplyError};
use crate::counting_serializer::{CommandSink, CountingSerializer, SinkV};
use crate::difference::{cmds_view, dstream, CmdV, DiffCommandValue, DiffContext};
use crate::value::Node;
use crate::FieldPathMode;

verus! {

/// Configures creation of diffs and applies: carries the field path mode.
pub struct Config {
    pub field_path_mode: FieldPathMode,
}

impl Config {
    /// A configuration with default values: fields addressed by name.
    pub fn new() -> (r: Config)
        ensures
            r.field_path_mode is Name,
    {
        Config { field_path_mode: FieldPathMode::Name }
    }

    /// Sets the field path mode to use when serializing a diff.
    pub fn with_field_path_mode(self, mode: FieldPathMode) -> (r: Config)
        ensures
            r.field_path_mode == mode,
    {
        Config { field_path_mode: mode }
    }

    /// The diff of `old_v` and `new_v` under this configuration.
    pub fn serializable_diff(self, old_v: &Node, new_v: &Node) -> (r: Diff)
        ensures
            cmds_view(r.commands@) == dstream(old_v@, new_v@, self.field_path_mode),
            r.has_changes == (dstream(old_v@, new_v@, self.field_path_mode).len() > 0),
    {
        let ghost d = dstream(old_v@, new_v@, self.field_path_mode);
        let empty_vec: Vec<DiffCommandValue> = Vec::new();
        proof {
            assert(cmds_view(empty_vec@) =~= Seq::<CmdV>::empty());
        }
        let mut ctx = DiffContext::new(CommandSink::Buffer(empty_vec), self.field_path_mode);
        let changed = old_v.diff(&mut ctx, new_v);
        let sink = ctx.into_sink();
        let commands = match sink {
            CommandSink::Buffer(v) => v,
            CommandSink::Counting(_) => {
                proof {
                    assert(false);
                }
                Vec::new()
            },
        };
        proof {
            if changed {
                assert(Seq::<CmdV>::empty() + (Seq::<CmdV>::empty() + d) =~= d);
                assert(cmds_view(commands@) =~= d);
            } else {
                assert(d =~= Seq::<CmdV>::empty());
                assert(cmds_view(commands@) =~= d);
            }
        }
        Diff { commands, has_changes: changed }
    }

    /// Applies a command sequence to the target in place; returns whether
    /// the target changed.
    pub fn apply(self, commands: Vec<DiffCommandValue>, target: &mut Node) -> (r: Result<
        bool,
        ApplyError,
    >)
        ensures
            ({
                let out = spec_apply_node(old(target)@, cmds_view(commands@));
                &&& final(target)@ == out.node
                &&& (out.err ==> r is Err)
                &&& (!out.err ==> r == Ok::<bool, ApplyError>(out.changed))
            }),
    {
        let mut ctx = ApplyContext::new(commands);
        target.apply(&mut ctx)
    }
}

/// The result of a diff: the command sequence that, written through a
/// host codec, transports what changed between the two values.
pub struct Diff {
    /// The diff command sequence, in emission order.
    pub commands: Vec<DiffCommandValue>,
    /// Whether any change command was emitted.
    pub has_changes: bool,
}

impl Diff {
    /// The diff of `old_v` and `new_v` under the default configuration.
    pub fn serializable(old_v: &Node, new_v: &Node) -> (r: Diff)
        ensures
            cmds_view(r.commands@) == dstream(old_v@, new_v@, FieldPathMode::Name),
            r.has_changes == (dstream(old_v@, new_v@, FieldPathMode::Name).len() > 0),
    {
        Config::new().serializable_diff(old_v, new_v)
    }

    /// True if a change was detected during the diff.
    pub fn has_changes(&self) -> (r: bool)
        ensures
            r == self.has_changes,
    {
        self.has_changes
    }

    /// Count the diff's elements with the counting pre-pass, as a
    /// length-prefixed host format must before writing: the count equals
    /// the number of commands the writing pass emits.
    pub fn element_count(&self, old_v: &Node, new_v: &Node, mode: FieldPathMode) -> (r: usize)
        requires
            cmds_view(self.commands@) == dstream(old_v@, new_v@, mode),
        ensures
            r == dstream(old_v@, new_v@, mode).len(),
            r == self.commands@.len(),
    {
        let ghost d = dstream(old_v@, new_v@, mode);
        let bound = self.commands.len();
        proof {
            assert(cmds_view(self.commands@).len() == self.commands@.len());
            assert(d.len() == bound);
        }
        let mut ctx = DiffContext::new(CommandSink::Counting(CountingSerializer::new()), mode);
        let _changed = old_v.diff(&mut ctx, new_v);
        let sink = ctx.into_sink();
        match sink {
            CommandSink::Counting(c) => {
                proof {
                    if _changed {
                        assert(Seq::<CmdV>::empty() + d =~= d);
                    } else {
                        assert(d.len() == 0);
                    }
                }
                c.end()
            },
            CommandSink::Buffer(_) => {
                proof {
                    assert(false);
                }
                0
            },
        }
    }
}

/// A view of a diff handle's command stream.
impl View for Diff {
    type V = Seq<CmdV>;

    open spec fn view(&self) -> Seq<CmdV> {
        cmds_view(self.commands@)
    }
}

} // verus!
