//! The control loop: what the engine does on a command.
//!
//! The engine itself does no input or output. On each command it says what
//! the host is to do, and the host reports back how reading a project or
//! opening the audio device went.

use crate::audio::track::TrackConfig;
use crate::project::Project;
use vstd::prelude::*;
use vstd::string::StringExecFns;

verus! {

/// A command to the engine.
#[derive(Debug, PartialEq, Eq)]
pub enum EngineCommand {
    /// Load the project at a path.
    LoadProject(String),
    /// Take over the instruments and mix settings of a project while the
    /// engine runs.
    ReloadProject(Project),
    Play,
    Pause,
    Stop,
    /// Reserved. `value_bits` holds the bits of a 64-bit number.
    SetVariable { name: String, value_bits: u64 },
}

/// What the engine tells the control side.
#[derive(Debug, PartialEq, Eq)]
pub enum EngineUpdate {
    ProjectLoaded { project: Project },
    CurrentNodes { track_nodes: Vec<(usize, String)> },
    PlaybackState { playing: bool },
    Error { message: String },
}

/// What the host is to do for the engine.
#[derive(Debug, PartialEq, Eq)]
pub enum EngineAction {
    /// Read the project at `path`, and report with `project_loaded` or
    /// `load_failed`.
    ReadProject { path: String },
    /// Tell the control side that the project which the engine now holds has
    /// been loaded.
    AnnounceProject,
    /// Open the audio device, with a new event queue and a sample counter at
    /// zero, and report with `audio_started` or `audio_failed`.
    OpenAudio,
    /// Close the audio device and drop the event queue, the sample counter
    /// and the voices.
    CloseAudio,
    /// Put `configs` in the place of the shared track configurations.
    Publish { configs: Vec<TrackConfig> },
    /// Send `update` to the control side.
    Send { update: EngineUpdate },
}

/// What the control loop knows.
#[derive(Debug, PartialEq, Eq)]
pub struct EngineState {
    /// The project that was loaded last.
    pub project: Option<Project>,
    /// Whether track configurations have been published and not dropped.
    pub published: bool,
    /// Whether the audio device is open. While it is, the sample counter
    /// that was made when it was opened is in use.
    pub streaming: bool,
    pub playing: bool,
}

/// Whether a command is `Play` or `Pause`.
pub open spec fn plays_or_pauses(command: EngineCommand) -> bool {
    command is Play || command is Pause
}

/// Whether the host is to open or close the audio device, and with it make
/// or drop a sample counter.
pub open spec fn touches_audio(action: EngineAction) -> bool {
    action is OpenAudio || action is CloseAudio
}

/// Whether `action` sends word of the playing state `playing`.
pub open spec fn says_playing(action: EngineAction, playing: bool) -> bool {
    action == (EngineAction::Send { update: EngineUpdate::PlaybackState { playing } })
}

/// Whether `action` sends an error whose message is `prefix` followed by
/// `reason`.
pub open spec fn says_error(action: EngineAction, prefix: Seq<char>, reason: Seq<char>) -> bool {
    match action {
        EngineAction::Send { update: EngineUpdate::Error { message } } => message@ == prefix
            + reason,
        _ => false,
    }
}

/// Whether `action` sends an empty list of current nodes.
pub open spec fn says_no_nodes(action: EngineAction) -> bool {
    match action {
        EngineAction::Send { update: EngineUpdate::CurrentNodes { track_nodes } } => track_nodes@.len()
            == 0,
        _ => false,
    }
}

impl EngineState {
    /// The state of the control loop after `command`.
    ///
    /// `Play` starts playing only if the audio device is open; otherwise the
    /// host is asked to open it and the state changes when the host reports.
    /// `Pause` stops playing and leaves the audio device open. `Stop` closes
    /// the audio device and drops what was published. A reload puts the new
    /// project in the place of the old one. Loading a project changes
    /// nothing until the host reports, and setting a variable changes
    /// nothing at all.
    pub open spec fn after(self, command: EngineCommand) -> EngineState {
        match command {
            EngineCommand::LoadProject(_) => self,
            EngineCommand::ReloadProject(project) => EngineState {
                project: Some(project),
                ..self
            },
            EngineCommand::Play => if self.project is Some && self.streaming {
                EngineState { playing: true, ..self }
            } else {
                self
            },
            EngineCommand::Pause => EngineState { playing: false, ..self },
            EngineCommand::Stop => EngineState {
                published: false,
                streaming: false,
                playing: false,
                ..self
            },
            EngineCommand::SetVariable { .. } => self,
        }
    }

    /// Whether `actions` is what the host is to do on `command`.
    pub open spec fn asks(self, command: EngineCommand, actions: Seq<EngineAction>) -> bool {
        match command {
            EngineCommand::LoadProject(path) => actions == seq![EngineAction::ReadProject { path }],
            EngineCommand::ReloadProject(project) => if self.published {
                &&& actions.len() == 1
                &&& match actions[0] {
                    EngineAction::Publish { configs } => project.configured_as(configs@),
                    _ => false,
                }
            } else {
                actions.len() == 0
            },
            EngineCommand::Play => if self.project is None {
                actions.len() == 0
            } else if self.streaming {
                actions.len() == 1 && says_playing(actions[0], true)
            } else {
                actions == seq![EngineAction::OpenAudio]
            },
            EngineCommand::Pause => actions.len() == 1 && says_playing(actions[0], false),
            EngineCommand::Stop => {
                &&& actions.len() == 3
                &&& actions[0] == EngineAction::CloseAudio
                &&& says_playing(actions[1], false)
                &&& says_no_nodes(actions[2])
            },
            EngineCommand::SetVariable { .. } => actions.len() == 0,
        }
    }

    /// The state after all of `commands`, one after the other.
    pub open spec fn after_all(self, commands: Seq<EngineCommand>) -> EngineState
        decreases commands.len(),
    {
        if commands.len() == 0 {
            self
        } else {
            self.after_all(commands.drop_last()).after(commands.last())
        }
    }

    /// Creates the state of an engine that has no project and is silent.
    pub fn new() -> (state: Self)
        ensures
            state.project is None,
            !state.published,
            !state.streaming,
            !state.playing,
    {
        Self { project: None, published: false, streaming: false, playing: false }
    }

    /// Takes a command, and returns what the host is to do.
    pub fn handle(&mut self, command: EngineCommand) -> (actions: Vec<EngineAction>)
        ensures
            *final(self) == old(self).after(command),
            old(self).asks(command, actions@),
    {
        let mut actions: Vec<EngineAction> = Vec::new();
        match command {
            EngineCommand::LoadProject(path) => {
                actions.push(EngineAction::ReadProject { path });
                proof {
                    assert(actions@ =~= seq![EngineAction::ReadProject { path }]);
                }
            },
            EngineCommand::ReloadProject(project) => {
                if self.published {
                    actions.push(EngineAction::Publish { configs: project.track_configs() });
                }
                self.project = Some(project);
            },
            EngineCommand::Play => {
                if self.project.is_some() {
                    if self.streaming {
                        self.playing = true;
                        actions.push(
                            EngineAction::Send {
                                update: EngineUpdate::PlaybackState { playing: true },
                            },
                        );
                    } else {
                        actions.push(EngineAction::OpenAudio);
                        proof {
                            assert(actions@ =~= seq![EngineAction::OpenAudio]);
                        }
                    }
                }
            },
            EngineCommand::Pause => {
                self.playing = false;
                actions.push(
                    EngineAction::Send { update: EngineUpdate::PlaybackState { playing: false } },
                );
            },
            EngineCommand::Stop => {
                self.published = false;
                self.streaming = false;
                self.playing = false;
                actions.push(EngineAction::CloseAudio);
                actions.push(
                    EngineAction::Send { update: EngineUpdate::PlaybackState { playing: false } },
                );
                actions.push(
                    EngineAction::Send {
                        update: EngineUpdate::CurrentNodes { track_nodes: Vec::new() },
                    },
                );
            },
            EngineCommand::SetVariable { .. } => {},
        }
        actions
    }

    /// Takes the project that the host has read. Playback stops: the host is
    /// to close the audio device and to announce the project.
    pub fn project_loaded(&mut self, project: Project) -> (actions: Vec<EngineAction>)
        ensures
            *final(self) == (EngineState {
                project: Some(project),
                streaming: false,
                playing: false,
                ..*old(self)
            }),
            actions@ == seq![EngineAction::CloseAudio, EngineAction::AnnounceProject],
    {
        self.project = Some(project);
        self.streaming = false;
        self.playing = false;
        let mut actions: Vec<EngineAction> = Vec::new();
        actions.push(EngineAction::CloseAudio);
        actions.push(EngineAction::AnnounceProject);
        proof {
            assert(actions@ =~= seq![EngineAction::CloseAudio, EngineAction::AnnounceProject]);
        }
        actions
    }

    /// Takes word that the host could not read a project. The state of the
    /// engine stays as it is, and the error is passed on.
    pub fn load_failed(&self, reason: &str) -> (actions: Vec<EngineAction>)
        ensures
            actions@.len() == 1,
            says_error(actions@[0], "Failed to load project: "@, reason@),
    {
        let message = "Failed to load project: ".to_string().concat(reason);
        let mut actions: Vec<EngineAction> = Vec::new();
        actions.push(EngineAction::Send { update: EngineUpdate::Error { message } });
        actions
    }

    /// Takes word that the host has opened the audio device and published
    /// the track configurations. The engine plays.
    pub fn audio_started(&mut self) -> (actions: Vec<EngineAction>)
        ensures
            *final(self) == (EngineState {
                published: true,
                streaming: true,
                playing: true,
                ..*old(self)
            }),
            actions@.len() == 1,
            says_playing(actions@[0], true),
    {
        self.published = true;
        self.streaming = true;
        self.playing = true;
        let mut actions: Vec<EngineAction> = Vec::new();
        actions.push(EngineAction::Send { update: EngineUpdate::PlaybackState { playing: true } });
        actions
    }

    /// Takes word that the host could not open the audio device. The engine
    /// stays as it is, not playing, and the error is passed on.
    pub fn audio_failed(&self, reason: &str) -> (actions: Vec<EngineAction>)
        ensures
            actions@.len() == 1,
            says_error(actions@[0], "Failed to start audio: "@, reason@),
    {
        let message = "Failed to start audio: ".to_string().concat(reason);
        let mut actions: Vec<EngineAction> = Vec::new();
        actions.push(EngineAction::Send { update: EngineUpdate::Error { message } });
        actions
    }

    /// `Play` and `Pause` leave an open audio device open: while the engine
    /// streams, neither asks the host to open or close the audio device, so
    /// the sample counter that the audio callback advances stays in use and
    /// is not reset.
    pub proof fn lemma_play_and_pause_keep_audio(
        self,
        command: EngineCommand,
        actions: Seq<EngineAction>,
    )
        requires
            self.streaming,
            plays_or_pauses(command),
            self.asks(command, actions),
        ensures
            self.after(command).streaming,
            forall|i: int| 0 <= i < actions.len() ==> !touches_audio(#[trigger] actions[i]),
    {
    }

    /// After any sequence of `Play` and `Pause` commands an engine that
    /// streamed still streams, with the project it had.
    pub proof fn lemma_play_and_pause_keep_streaming(self, commands: Seq<EngineCommand>)
        requires
            self.streaming,
            forall|i: int| 0 <= i < commands.len() ==> plays_or_pauses(#[trigger] commands[i]),
        ensures
            self.after_all(commands).streaming,
            self.after_all(commands).published == self.published,
            self.after_all(commands).project == self.project,
        decreases commands.len(),
    {
        if commands.len() > 0 {
            let earlier = commands.drop_last();
            assert forall|i: int| 0 <= i < earlier.len() implies plays_or_pauses(
                #[trigger] earlier[i],
            ) by {
                assert(earlier[i] == commands[i]);
            }
            self.lemma_play_and_pause_keep_streaming(earlier);
            assert(plays_or_pauses(commands.last()));
        }
    }
}

impl Default for EngineState {
    fn default() -> (state: Self)
        ensures
            state.project is None,
            !state.published,
            !state.streaming,
            !state.playing,
    {
        Self::new()
    }
}

} // verus!
