//! The decisions of the node launchpad: what an input event leads to and
//! what an action does to the state of the application. The caller reads
//! the terminal, draws and saves; nothing here waits or does I/O.

use vstd::prelude::*;

verus! {

/// Whether keys are commands or text.
#[derive(Clone, Copy, Debug, PartialEq, Eq, Structural)]
pub enum InputMode {
    /// Keys are looked up in the bindings.
    Navigation,
    /// Keys go to the components, which take them as text.
    Entry,
}

/// What the application shows.
#[derive(Clone, Copy, Debug, PartialEq, Eq, Structural)]
pub enum Scene {
    Home,
    BetaProgramme,
    ResourceAllocation,
    Help,
}

/// What the application can be told to do.
#[derive(Clone, Debug, PartialEq, Eq)]
pub enum Action {
    Tick,
    Render,
    Resize(u16, u16),
    Suspend,
    Resume,
    Quit,
    SwitchScene(Scene),
    SwitchInputMode(InputMode),
    StoreDiscordUserName(String),
    StoreAllocatedDiskSpace(usize),
    Error(String),
    Noop,
}

impl Action {
    /// A copy of the action.
    pub fn duplicate(&self) -> (copy: Action)
        ensures
            copy == *self,
    {
        match self {
            Action::Tick => Action::Tick,
            Action::Render => Action::Render,
            Action::Resize(w, h) => Action::Resize(*w, *h),
            Action::Suspend => Action::Suspend,
            Action::Resume => Action::Resume,
            Action::Quit => Action::Quit,
            Action::SwitchScene(scene) => Action::SwitchScene(*scene),
            Action::SwitchInputMode(mode) => Action::SwitchInputMode(*mode),
            Action::StoreDiscordUserName(name) => Action::StoreDiscordUserName(name.clone()),
            Action::StoreAllocatedDiskSpace(space) => Action::StoreAllocatedDiskSpace(*space),
            Action::Error(text) => Action::Error(text.clone()),
            Action::Noop => Action::Noop,
        }
    }
}

/// What the terminal reports. A key is the number the caller gives it.
#[derive(Clone, Copy, Debug, PartialEq, Eq, Structural)]
pub enum Event {
    Quit,
    Tick,
    Render,
    Resize(u16, u16),
    Key(u64),
    Other,
}

/// A sequence of keys that, in a scene, stands for an action.
#[derive(Clone, Debug, PartialEq, Eq)]
pub struct Binding {
    pub scene: Scene,
    pub keys: Vec<u64>,
    pub action: Action,
}

/// What is kept between two runs of the application.
#[derive(Clone, Debug, PartialEq, Eq)]
pub struct AppData {
    pub discord_username: String,
    pub allocated_disk_space: usize,
}

/// The state of the application.
#[derive(Clone, Debug, PartialEq, Eq)]
pub struct AppState {
    pub app_data: AppData,
    pub should_quit: bool,
    pub should_suspend: bool,
    pub input_mode: InputMode,
    pub scene: Scene,
    /// The keys pressed since the last tick that no single binding took.
    pub last_tick_key_events: Vec<u64>,
}

/// What an event leads to.
#[derive(Clone, Debug, PartialEq, Eq)]
pub enum Dispatch {
    /// Nothing.
    Nothing,
    /// This action is to be queued.
    Send(Action),
    /// The event is to be handed to every component, and what they answer
    /// queued.
    Forward,
}

/// What the caller does for an action, besides handing it to every
/// component.
#[derive(Clone, Copy, Debug, PartialEq, Eq, Structural)]
pub enum Effect {
    Nothing,
    /// Resize the terminal to this width and height, and draw.
    Resize(u16, u16),
    /// Draw.
    Draw,
    /// Save what is kept between runs.
    Save,
}

/// What the caller does once the queue of actions is empty.
#[derive(Clone, Copy, Debug, PartialEq, Eq, Structural)]
pub enum Control {
    /// Read the next event.
    Continue,
    /// Leave the terminal, queue [`Action::Resume`] and enter it again.
    Suspend,
    /// Stop the terminal and end.
    Stop,
}

/// Whether binding `i` is the first for `keys` in `scene`.
pub open spec fn is_bound(bindings: Seq<Binding>, scene: Scene, keys: Seq<u64>, i: int) -> bool {
    &&& 0 <= i < bindings.len()
    &&& bindings[i].scene == scene
    &&& bindings[i].keys@ == keys
    &&& forall|j: int|
        0 <= j < i ==> !((#[trigger] bindings[j]).scene == scene && bindings[j].keys@ == keys)
}

/// The action that `keys` stand for in `scene`, if any.
pub open spec fn bound_action(bindings: Seq<Binding>, scene: Scene, keys: Seq<u64>) -> Option<
    Action,
> {
    if exists|i: int| is_bound(bindings, scene, keys, i) {
        Some(bindings[choose|i: int| is_bound(bindings, scene, keys, i)].action)
    } else {
        None
    }
}

/// Whether `scene` has any binding.
pub open spec fn has_bindings(bindings: Seq<Binding>, scene: Scene) -> bool {
    exists|i: int| 0 <= i < bindings.len() && (#[trigger] bindings[i]).scene == scene
}

/// The keys kept and the dispatch after a key in navigation mode: without
/// bindings for the scene nothing happens; a key that is bound alone sends
/// its action; else the key joins the keys kept, and if these are bound
/// together their action is sent.
pub open spec fn key_step(bindings: Seq<Binding>, scene: Scene, kept: Seq<u64>, key: u64) -> (
    Seq<u64>,
    Dispatch,
) {
    if !has_bindings(bindings, scene) {
        (kept, Dispatch::Nothing)
    } else {
        match bound_action(bindings, scene, seq![key]) {
            Some(action) => (kept, Dispatch::Send(action)),
            None => match bound_action(bindings, scene, kept.push(key)) {
                Some(action) => (kept.push(key), Dispatch::Send(action)),
                None => (kept.push(key), Dispatch::Nothing),
            },
        }
    }
}

/// What `event` leads to, and the keys kept after it.
pub open spec fn event_step(
    bindings: Seq<Binding>,
    mode: InputMode,
    scene: Scene,
    kept: Seq<u64>,
    event: Event,
) -> (Seq<u64>, Dispatch) {
    match event {
        Event::Quit => (kept, Dispatch::Send(Action::Quit)),
        Event::Tick => (kept, Dispatch::Send(Action::Tick)),
        Event::Render => (kept, Dispatch::Send(Action::Render)),
        Event::Resize(w, h) => (kept, Dispatch::Send(Action::Resize(w, h))),
        Event::Key(key) => match mode {
            InputMode::Navigation => key_step(bindings, scene, kept, key),
            InputMode::Entry => (kept, Dispatch::Forward),
        },
        Event::Other => (kept, Dispatch::Nothing),
    }
}

fn same_keys(a: &Vec<u64>, b: &Vec<u64>) -> (same: bool)
    ensures
        same == (a@ == b@),
{
    if a.len() != b.len() {
        return false;
    }
    let mut i: usize = 0;
    while i < a.len()
        invariant
            i <= a@.len(),
            a@.len() == b@.len(),
            forall|k: int| 0 <= k < i ==> a@[k] == b@[k],
        decreases a@.len() - i,
    {
        if a[i] != b[i] {
            return false;
        }
        i += 1;
    }
    proof {
        assert(a@ =~= b@);
    }
    true
}

/// The first binding for `keys` in `scene`, if there is one.
pub fn lookup(bindings: &Vec<Binding>, scene: Scene, keys: &Vec<u64>) -> (found: Option<usize>)
    ensures
        match found {
            Some(i) => is_bound(bindings@, scene, keys@, i as int) && bound_action(
                bindings@,
                scene,
                keys@,
            ) == Some(bindings@[i as int].action),
            None => bound_action(bindings@, scene, keys@) is None,
        },
{
    let mut i: usize = 0;
    while i < bindings.len()
        invariant
            i <= bindings@.len(),
            forall|j: int|
                0 <= j < i ==> !((#[trigger] bindings@[j]).scene == scene && bindings@[j].keys@
                    == keys@),
        decreases bindings@.len() - i,
    {
        if bindings[i].scene == scene && same_keys(&bindings[i].keys, keys) {
            proof {
                let c = choose|c: int| is_bound(bindings@, scene, keys@, c);
                assert(is_bound(bindings@, scene, keys@, i as int));
                assert(is_bound(bindings@, scene, keys@, c));
                if c < i {
                    assert(!(bindings@[c].scene == scene && bindings@[c].keys@ == keys@));
                }
                if i < c {
                    assert(!(bindings@[i as int].scene == scene && bindings@[i as int].keys@
                        == keys@));
                }
            }
            return Some(i);
        }
        i += 1;
    }
    proof {
        assert forall|c: int| !is_bound(bindings@, scene, keys@, c) by {
            if is_bound(bindings@, scene, keys@, c) {
                assert(!(bindings@[c].scene == scene && bindings@[c].keys@ == keys@));
            }
        }
    }
    None
}

fn scene_is_bound(bindings: &Vec<Binding>, scene: Scene) -> (found: bool)
    ensures
        found == has_bindings(bindings@, scene),
{
    let mut i: usize = 0;
    while i < bindings.len()
        invariant
            i <= bindings@.len(),
            forall|j: int| 0 <= j < i ==> (#[trigger] bindings@[j]).scene != scene,
        decreases bindings@.len() - i,
    {
        if bindings[i].scene == scene {
            return true;
        }
        i += 1;
    }
    false
}

impl AppState {
    /// The state in which the application starts: at home, in navigation
    /// mode, with no key kept.
    pub fn new(app_data: AppData) -> (state: AppState)
        ensures
            state.app_data == app_data,
            !state.should_quit,
            !state.should_suspend,
            state.input_mode == InputMode::Navigation,
            state.scene == Scene::Home,
            state.last_tick_key_events@ == Seq::<u64>::empty(),
    {
        AppState {
            app_data,
            should_quit: false,
            should_suspend: false,
            input_mode: InputMode::Navigation,
            scene: Scene::Home,
            last_tick_key_events: Vec::new(),
        }
    }

    /// Takes an event from the terminal and says what it leads to. Only the
    /// keys kept can change.
    pub fn on_event(&mut self, event: Event, bindings: &Vec<Binding>) -> (dispatch: Dispatch)
        ensures
            (final(self).last_tick_key_events@, dispatch) == event_step(
                bindings@,
                old(self).input_mode,
                old(self).scene,
                old(self).last_tick_key_events@,
                event,
            ),
            final(self).app_data == old(self).app_data,
            final(self).should_quit == old(self).should_quit,
            final(self).should_suspend == old(self).should_suspend,
            final(self).input_mode == old(self).input_mode,
            final(self).scene == old(self).scene,
    {
        match event {
            Event::Quit => Dispatch::Send(Action::Quit),
            Event::Tick => Dispatch::Send(Action::Tick),
            Event::Render => Dispatch::Send(Action::Render),
            Event::Resize(w, h) => Dispatch::Send(Action::Resize(w, h)),
            Event::Other => Dispatch::Nothing,
            Event::Key(key) => {
                match self.input_mode {
                    InputMode::Entry => Dispatch::Forward,
                    InputMode::Navigation => {
                        if !scene_is_bound(bindings, self.scene) {
                            return Dispatch::Nothing;
                        }
                        let mut single: Vec<u64> = Vec::new();
                        single.push(key);
                        proof {
                            assert(single@ =~= seq![key]);
                        }
                        match lookup(bindings, self.scene, &single) {
                            Some(i) => Dispatch::Send(bindings[i].action.duplicate()),
                            None => {
                                self.last_tick_key_events.push(key);
                                match lookup(bindings, self.scene, &self.last_tick_key_events) {
                                    Some(i) => Dispatch::Send(bindings[i].action.duplicate()),
                                    None => Dispatch::Nothing,
                                }
                            },
                        }
                    },
                }
            },
        }
    }

    /// Takes an action from the queue and says what the caller does for it.
    ///
    /// A tick forgets the keys kept; quit, suspend and resume set their
    /// flags; a switch changes the scene or the mode; storing changes what is
    /// kept between runs, which is then to be saved.
    pub fn on_action(&mut self, action: &Action) -> (effect: Effect)
        ensures
            effect == match *action {
                Action::Resize(w, h) => Effect::Resize(w, h),
                Action::Render => Effect::Draw,
                Action::StoreDiscordUserName(_) => Effect::Save,
                Action::StoreAllocatedDiskSpace(_) => Effect::Save,
                _ => Effect::Nothing,
            },
            final(self).last_tick_key_events@ == if *action == Action::Tick {
                Seq::<u64>::empty()
            } else {
                old(self).last_tick_key_events@
            },
            final(self).should_quit == (old(self).should_quit || *action == Action::Quit),
            final(self).should_suspend == match *action {
                Action::Suspend => true,
                Action::Resume => false,
                _ => old(self).should_suspend,
            },
            final(self).scene == match *action {
                Action::SwitchScene(scene) => scene,
                _ => old(self).scene,
            },
            final(self).input_mode == match *action {
                Action::SwitchInputMode(mode) => mode,
                _ => old(self).input_mode,
            },
            final(self).app_data.discord_username@ == match *action {
                Action::StoreDiscordUserName(name) => name@,
                _ => old(self).app_data.discord_username@,
            },
            final(self).app_data.allocated_disk_space == match *action {
                Action::StoreAllocatedDiskSpace(space) => space,
                _ => old(self).app_data.allocated_disk_space,
            },
    {
        match action {
            Action::Tick => {
                self.last_tick_key_events.clear();
                Effect::Nothing
            },
            Action::Quit => {
                self.should_quit = true;
                Effect::Nothing
            },
            Action::Suspend => {
                self.should_suspend = true;
                Effect::Nothing
            },
            Action::Resume => {
                self.should_suspend = false;
                Effect::Nothing
            },
            Action::Resize(w, h) => Effect::Resize(*w, *h),
            Action::Render => Effect::Draw,
            Action::SwitchScene(scene) => {
                self.scene = *scene;
                Effect::Nothing
            },
            Action::SwitchInputMode(mode) => {
                self.input_mode = *mode;
                Effect::Nothing
            },
            Action::StoreDiscordUserName(name) => {
                self.app_data.discord_username = name.clone();
                Effect::Save
            },
            Action::StoreAllocatedDiskSpace(space) => {
                self.app_data.allocated_disk_space = *space;
                Effect::Save
            },
            Action::Error(_) => Effect::Nothing,
            Action::Noop => Effect::Nothing,
        }
    }

    /// What the caller does once the queue of actions is empty: suspend if
    /// that was asked, else stop if quitting was, else go on.
    pub fn control(&self) -> (control: Control)
        ensures
            control == if self.should_suspend {
                Control::Suspend
            } else if self.should_quit {
                Control::Stop
            } else {
                Control::Continue
            },
    {
        if self.should_suspend {
            Control::Suspend
        } else if self.should_quit {
            Control::Stop
        } else {
            Control::Continue
        }
    }
}

} // verus!
