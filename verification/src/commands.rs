use crate::world::lemma_despawned;
use crate::world::lemma_tagged_auto_child_wf;
use crate::world::lemma_with_component_wf;
use crate::world::lemma_with_scene_root_wf;
use crate::world::Component;
use crate::world::ComponentView;
use crate::world::LiveHandle;
use crate::world::SceneAutoChild;
use crate::world::Selector;
use crate::world::World;
use crate::world::WorldView;
use vstd::prelude::*;

verus! {

/// A structural change to the world, recorded now and applied at the next
/// flush.
#[derive(Clone, Debug, PartialEq, Eq)]
pub enum Command {
    /// Despawn what the selector picks, with all descendants.
    Despawn(Selector),
    /// Spawn the auto-generated root of a scene asset under `parent`.
    SpawnScene { parent: LiveHandle, asset: String },
    /// Apply-or-insert a component on an entity.
    Insert { entity: LiveHandle, component: Component },
    /// Tag an entity as an auto-generated hierarchy child.
    TagAutoChild(LiveHandle),
}

/// What a [`Command`] stands for in contracts.
pub enum CommandView {
    Despawn(Selector),
    SpawnScene { parent: u64, asset: Seq<char> },
    Insert { entity: u64, component: ComponentView },
    TagAutoChild(u64),
}

impl View for Command {
    type V = CommandView;

    open spec fn view(&self) -> CommandView {
        match self {
            Command::Despawn(sel) => CommandView::Despawn(*sel),
            Command::SpawnScene { parent, asset } => CommandView::SpawnScene {
                parent: *parent,
                asset: asset@,
            },
            Command::Insert { entity, component } => CommandView::Insert {
                entity: *entity,
                component: component@,
            },
            Command::TagAutoChild(h) => CommandView::TagAutoChild(*h),
        }
    }
}

/// The views of a sequence of commands, in order.
pub open spec fn command_views(commands: Seq<Command>) -> Seq<CommandView> {
    commands.map_values(|c: Command| c@)
}

/// The world after one command. A command that names a dead entity changes
/// nothing.
pub open spec fn after_command(w: WorldView, c: CommandView) -> WorldView {
    match c {
        CommandView::Despawn(sel) => w.despawned(sel),
        CommandView::SpawnScene { parent, asset } => if w.contains(parent) {
            w.with_scene_root(parent, asset)
        } else {
            w
        },
        CommandView::Insert { entity, component } => w.with_component(entity, component),
        CommandView::TagAutoChild(h) => w.tagged_auto_child(h),
    }
}

/// The world after the first `n` of `commands`, applied in order.
pub open spec fn flushed(w: WorldView, commands: Seq<CommandView>, n: int) -> WorldView
    decreases n,
{
    if n <= 0 {
        w
    } else {
        after_command(flushed(w, commands, n - 1), commands[n - 1])
    }
}

/// A command keeps the world well-formed and takes at most one handle.
pub proof fn lemma_after_command(w: WorldView, c: CommandView)
    requires
        w.wf(),
        w.next < u64::MAX,
    ensures
        after_command(w, c).wf(),
        w.next <= after_command(w, c).next <= w.next + 1,
{
    match c {
        CommandView::Despawn(sel) => {
            lemma_despawned(w, sel);
        },
        CommandView::SpawnScene { parent, asset } => {
            if w.contains(parent) {
                lemma_with_scene_root_wf(w, parent, asset);
            }
        },
        CommandView::Insert { entity, component } => {
            lemma_with_component_wf(w, entity, component);
        },
        CommandView::TagAutoChild(h) => {
            lemma_tagged_auto_child_wf(w, h);
        },
    }
}

/// A flush keeps the world well-formed and takes at most one handle for
/// each command.
pub proof fn lemma_flushed(w: WorldView, commands: Seq<CommandView>, n: int)
    requires
        w.wf(),
        0 <= n <= commands.len(),
        w.next + n <= u64::MAX,
    ensures
        flushed(w, commands, n).wf(),
        w.next <= flushed(w, commands, n).next <= w.next + n,
    decreases n,
{
    if n > 0 {
        lemma_flushed(w, commands, n - 1);
        lemma_after_command(flushed(w, commands, n - 1), commands[n - 1]);
    }
}

/// The batch of structural changes that the systems of one tick record. It
/// is applied as a whole at the flush point of the tick.
pub struct CommandQueue {
    commands: Vec<Command>,
}

impl View for CommandQueue {
    type V = Seq<CommandView>;

    closed spec fn view(&self) -> Seq<CommandView> {
        command_views(self.commands@)
    }
}

/// Applies one command to the world.
fn apply(world: &mut World, command: Command)
    requires
        old(world)@.wf(),
        old(world)@.next < u64::MAX,
    ensures
        final(world)@ == after_command(old(world)@, command@),
        final(world)@.wf(),
{
    match command {
        Command::Despawn(sel) => {
            world.despawn(sel);
        },
        Command::SpawnScene { parent, asset } => {
            world.spawn_scene_root(parent, asset);
        },
        Command::Insert { entity, component } => {
            world.insert(entity, component);
        },
        Command::TagAutoChild(h) => {
            world.insert_auto_child(h, SceneAutoChild);
        },
    }
}

impl CommandQueue {
    /// A queue without commands.
    pub fn new() -> (queue: CommandQueue)
        ensures
            queue@ == Seq::<CommandView>::empty(),
    {
        let queue = CommandQueue { commands: Vec::new() };
        assert(queue@ =~= Seq::<CommandView>::empty());
        queue
    }

    /// The number of recorded commands.
    pub fn len(&self) -> (n: usize)
        ensures
            n == self@.len(),
    {
        self.commands.len()
    }

    /// Records `command` after the others.
    pub fn push(&mut self, command: Command)
        ensures
            final(self)@ == old(self)@.push(command@),
    {
        self.commands.push(command);
        assert(self@ =~= old(self)@.push(command@));
    }

    /// Hands out the recorded commands, in the order in which they were
    /// recorded, and leaves the queue empty.
    pub fn take(&mut self) -> (commands: Vec<Command>)
        ensures
            command_views(commands@) == old(self)@,
            final(self)@ == Seq::<CommandView>::empty(),
    {
        let mut commands: Vec<Command> = Vec::new();
        core::mem::swap(&mut commands, &mut self.commands);
        assert(self@ =~= Seq::<CommandView>::empty());
        commands
    }

    /// Applies the recorded commands to `world`, in the order in which they
    /// were recorded, and leaves the queue empty.
    pub fn flush(&mut self, world: &mut World)
        requires
            old(world)@.wf(),
            old(world)@.next + old(self)@.len() <= u64::MAX,
        ensures
            final(world)@ == flushed(old(world)@, old(self)@, old(self)@.len() as int),
            final(world)@.wf(),
            final(self)@ == Seq::<CommandView>::empty(),
    {
        let n = self.commands.len();
        let ghost recorded = self@;
        let mut i: usize = 0;
        assert(self@ =~= recorded.skip(0));
        while i < n
            invariant
                0 <= i <= n,
                n == recorded.len(),
                recorded == old(self)@,
                old(world)@.wf(),
                old(world)@.next + n <= u64::MAX,
                self@ == recorded.skip(i as int),
                world@ == flushed(old(world)@, recorded, i as int),
                world@.wf(),
            decreases n - i,
        {
            proof {
                lemma_flushed(old(world)@, recorded, i as int);
            }
            assert(self.commands@.len() == self@.len());
            assert(self@[0] == self.commands[0]@);
            let ghost before = self@;
            let ghost raw = self.commands@;
            let command = self.commands.remove(0);
            assert(self.commands@ == raw.remove(0));
            assert forall|k: int| 0 <= k < self@.len() implies #[trigger] self@[k] == recorded.skip(
                i + 1,
            )[k] by {
                assert(self@[k] == self.commands@[k]@);
                assert(self.commands@[k] == raw[k + 1]);
                assert(before[k + 1] == raw[k + 1]@);
            }
            assert(self@ =~= recorded.skip(i + 1));
            apply(world, command);
            i += 1;
        }
        assert(self@ =~= Seq::<CommandView>::empty());
    }
}

} // verus!
