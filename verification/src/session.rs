//! The editor's decisions about the game it edits: when the scene file is
//! written, when the game runs, and what a build does.  The editor performs
//! the effects in the order given and feeds back what happens.
use vstd::prelude::*;

verus! {

/// The game the editor holds: whether its library produced a game state,
/// and whether the game runs (else it is edited).
#[derive(Clone, Copy, Debug, PartialEq, Eq, Structural)]
pub struct GameSlot {
    pub has_state: bool,
    pub running: bool,
}

/// What the editor knows of its game and of the build of the game library.
#[derive(Clone, Copy, Debug, PartialEq, Eq, Structural)]
pub struct Session {
    pub game: Option<GameSlot>,
    pub building: bool,
}

/// Something the editor must do.
#[derive(Clone, Copy, Debug, PartialEq, Eq, Structural)]
pub enum Effect {
    /// Create the scene file, or empty it.
    CreateSceneFile,
    /// Write the scene of the game state into the scene file.
    WriteScene,
    /// Drop the game state.
    DropGameState,
    /// Start building the game library.
    SpawnBuild,
    /// Run the start hooks of the game.
    StartGame,
    /// Read the scene file, which must exist, rebuild the game state from it
    /// and run its editor start hooks.
    ReloadGame,
    /// Load the game library, with the scene file if there is one, and run
    /// the editor start hooks of the new game.
    LoadGame,
    /// Run a frame of the running game.
    UpdateGame,
    /// Run a frame of the edited game.
    EditorUpdateGame,
    /// Drop the game and close its library.
    DropGame,
}

/// The effects of saving the scene: only a game that is not running is
/// saved, and only a game state is written.
pub open spec fn save_effects(s: Session) -> Seq<Effect> {
    match s.game {
        Some(g) => if g.running {
            Seq::empty()
        } else if g.has_state {
            seq![Effect::CreateSceneFile, Effect::WriteScene]
        } else {
            seq![Effect::CreateSceneFile]
        },
        None => Seq::empty(),
    }
}

/// The editor after starting its game, and what it does: the scene is
/// saved, the game runs and, where there is a game state, its start hooks
/// run.  Without a game nothing happens.
pub open spec fn start_game_spec(s: Session) -> (Session, Seq<Effect>) {
    match s.game {
        Some(g) => (
            Session { game: Some(GameSlot { running: true, ..g }), ..s },
            save_effects(s) + if g.has_state {
                seq![Effect::StartGame]
            } else {
                Seq::empty()
            },
        ),
        None => (s, Seq::empty()),
    }
}

/// The build button: the scene is saved, the game state dropped and the
/// build started; while a build runs nothing happens.
pub open spec fn build_spec(s: Session) -> (Session, Seq<Effect>) {
    if s.building {
        (s, Seq::empty())
    } else {
        match s.game {
            Some(g) => (
                Session { game: Some(GameSlot { has_state: false, ..g }), building: true },
                save_effects(s) + seq![Effect::DropGameState, Effect::SpawnBuild],
            ),
            None => (Session { game: None, building: true }, seq![Effect::SpawnBuild]),
        }
    }
}

/// The stop button: a running game stops and its state is read back from
/// the scene file; otherwise nothing happens.
pub open spec fn stop_spec(s: Session) -> (Session, Seq<Effect>) {
    match s.game {
        Some(g) => if g.running {
            (
                Session { game: Some(GameSlot { has_state: true, running: false }), ..s },
                seq![Effect::ReloadGame],
            )
        } else {
            (s, Seq::empty())
        },
        None => (s, Seq::empty()),
    }
}

/// The start button: a game that is not running is started; otherwise
/// nothing happens.
pub open spec fn start_spec(s: Session) -> (Session, Seq<Effect>) {
    match s.game {
        Some(g) => if g.running {
            (s, Seq::empty())
        } else {
            start_game_spec(s)
        },
        None => (s, Seq::empty()),
    }
}

/// The end of a build: after a success the game library is loaded anew and
/// its game is edited; after a failure the game stays as it was.
pub open spec fn build_finished_spec(s: Session, success: bool) -> (Session, Seq<Effect>) {
    if success {
        (
            Session { game: Some(GameSlot { has_state: true, running: false }), building: false },
            seq![Effect::LoadGame],
        )
    } else {
        (Session { building: false, ..s }, Seq::empty())
    }
}

/// The frame the game state runs: a game frame for a running game, an
/// editor frame for an edited one, none without a game state.
pub open spec fn update_spec(s: Session) -> Option<Effect> {
    match s.game {
        Some(g) => if !g.has_state {
            None
        } else if g.running {
            Some(Effect::UpdateGame)
        } else {
            Some(Effect::EditorUpdateGame)
        },
        None => None,
    }
}

/// Before drawing, a game without a game state is dropped.
pub open spec fn render_spec(s: Session) -> (Session, Option<Effect>) {
    match s.game {
        Some(g) => if !g.has_state {
            (Session { game: None, ..s }, Some(Effect::DropGame))
        } else {
            (s, None)
        },
        None => (s, None),
    }
}

impl Session {
    /// No game and no build yet.
    pub fn new() -> (s: Self)
        ensures
            s.game == None::<GameSlot>,
            !s.building,
    {
        Session { game: None, building: false }
    }

    /// Whether the build button is offered: not while a build runs.
    pub fn can_build(&self) -> (b: bool)
        ensures
            b == !self.building,
    {
        !self.building
    }

    /// Whether the start button is offered: for a game that is not running.
    pub fn can_start(&self) -> (b: bool)
        ensures
            b == (self.game matches Some(g) && !g.running),
    {
        match self.game {
            Some(g) => !g.running,
            None => false,
        }
    }

    /// Whether the stop button is offered: for a running game.
    pub fn can_stop(&self) -> (b: bool)
        ensures
            b == (self.game matches Some(g) && g.running),
    {
        match self.game {
            Some(g) => g.running,
            None => false,
        }
    }

    /// Saving the scene.
    pub fn save_scene(&self) -> (e: Vec<Effect>)
        ensures
            e@ == save_effects(*self),
    {
        let mut e: Vec<Effect> = Vec::new();
        if let Some(g) = self.game {
            if !g.running {
                e.push(Effect::CreateSceneFile);
                if g.has_state {
                    e.push(Effect::WriteScene);
                }
            }
        }
        proof {
            assert(e@ =~= save_effects(*self));
        }
        e
    }

    /// Starting the game: the scene is saved, then the game runs and its
    /// start hooks run.
    pub fn start_game(&mut self) -> (e: Vec<Effect>)
        ensures
            (*final(self), e@) == start_game_spec(*old(self)),
    {
        let mut e = self.save_scene();
        if let Some(g) = self.game {
            self.game = Some(GameSlot { running: true, ..g });
            if g.has_state {
                e.push(Effect::StartGame);
            }
            proof {
                assert(e@ =~= start_game_spec(*old(self)).1);
            }
        }
        e
    }

    /// The build button.
    pub fn build(&mut self) -> (e: Vec<Effect>)
        ensures
            (*final(self), e@) == build_spec(*old(self)),
    {
        if self.building {
            return Vec::new();
        }
        let mut e = self.save_scene();
        if let Some(g) = self.game {
            self.game = Some(GameSlot { has_state: false, ..g });
            e.push(Effect::DropGameState);
        }
        e.push(Effect::SpawnBuild);
        self.building = true;
        proof {
            assert(e@ =~= build_spec(*old(self)).1);
        }
        e
    }

    /// The stop button.
    pub fn stop(&mut self) -> (e: Vec<Effect>)
        ensures
            (*final(self), e@) == stop_spec(*old(self)),
    {
        let mut e: Vec<Effect> = Vec::new();
        if let Some(g) = self.game {
            if g.running {
                self.game = Some(GameSlot { has_state: true, running: false });
                e.push(Effect::ReloadGame);
            }
        }
        proof {
            assert(e@ =~= stop_spec(*old(self)).1);
        }
        e
    }

    /// The start button.
    pub fn start(&mut self) -> (e: Vec<Effect>)
        ensures
            (*final(self), e@) == start_spec(*old(self)),
    {
        if self.can_start() {
            self.start_game()
        } else {
            let e: Vec<Effect> = Vec::new();
            proof {
                assert(e@ =~= start_spec(*old(self)).1);
            }
            e
        }
    }

    /// The build ended, with success or not.
    pub fn build_finished(&mut self, success: bool) -> (e: Vec<Effect>)
        ensures
            (*final(self), e@) == build_finished_spec(*old(self), success),
    {
        let mut e: Vec<Effect> = Vec::new();
        if success {
            self.game = Some(GameSlot { has_state: true, running: false });
            e.push(Effect::LoadGame);
        }
        self.building = false;
        proof {
            assert(e@ =~= build_finished_spec(*old(self), success).1);
        }
        e
    }

    /// The frame the game state runs.
    pub fn update(&self) -> (e: Option<Effect>)
        ensures
            e == update_spec(*self),
    {
        match self.game {
            Some(g) => if !g.has_state {
                None
            } else if g.running {
                Some(Effect::UpdateGame)
            } else {
                Some(Effect::EditorUpdateGame)
            },
            None => None,
        }
    }

    /// Before drawing.
    pub fn render(&mut self) -> (e: Option<Effect>)
        ensures
            (*final(self), e) == render_spec(*old(self)),
    {
        if let Some(g) = self.game {
            if !g.has_state {
                self.game = None;
                return Some(Effect::DropGame);
            }
        }
        None
    }
}

/// The scene file is never written while the game runs.
pub proof fn lemma_no_save_while_running(s: Session)
    requires
        s.game matches Some(g) && g.running,
    ensures
        save_effects(s) == Seq::<Effect>::empty(),
{
}

/// Stopping undoes starting: an edited game with a state that is started
/// and stopped is edited again, with its state read back from the scene
/// that starting wrote.
pub proof fn lemma_start_then_stop(s: Session)
    requires
        s.game matches Some(g) && g.has_state && !g.running,
    ensures
        stop_spec(start_spec(s).0).0 == s,
        start_spec(s).1 == seq![Effect::CreateSceneFile, Effect::WriteScene, Effect::StartGame],
        stop_spec(start_spec(s).0).1 == seq![Effect::ReloadGame],
{
    assert(start_spec(s).1 =~= seq![Effect::CreateSceneFile, Effect::WriteScene, Effect::StartGame]);
}

/// Pressing start twice starts the game once.
pub proof fn lemma_start_idempotent(s: Session)
    ensures
        start_spec(start_spec(s).0).0 == start_spec(s).0,
        start_spec(start_spec(s).0).1 == Seq::<Effect>::empty(),
{
}

/// Pressing build twice starts one build.
pub proof fn lemma_build_idempotent(s: Session)
    ensures
        build_spec(build_spec(s).0).0 == build_spec(s).0,
        build_spec(build_spec(s).0).1 == Seq::<Effect>::empty(),
{
}

/// While a build runs the game runs no frame, and the next drawing drops
/// it.
pub proof fn lemma_no_frame_while_building(s: Session)
    requires
        !s.building,
    ensures
        update_spec(build_spec(s).0) == None::<Effect>,
        s.game is Some ==> render_spec(build_spec(s).0) == (
            Session { game: None, building: true },
            Some(Effect::DropGame),
        ),
{
}

/// A successful build leaves an edited game with a state, ready to start.
pub proof fn lemma_build_then_load(s: Session)
    requires
        !s.building,
    ensures
        build_finished_spec(build_spec(s).0, true).0 == (Session {
            game: Some(GameSlot { has_state: true, running: false }),
            building: false,
        }),
        update_spec(build_finished_spec(build_spec(s).0, true).0) == Some(Effect::EditorUpdateGame),
{
}

/// Drawing drops a game only when it has no game state: a game with a
/// state, running or edited, is kept and nothing happens; a game without
/// one is dropped; without a game nothing happens.  In particular a game
/// just started is kept.
pub proof fn lemma_render_keeps_a_game_with_state(s: Session)
    ensures
        s.game matches Some(g) && g.has_state ==> render_spec(s) == (s, None::<Effect>),
        s.game matches Some(g) && !g.has_state ==> render_spec(s) == (
            Session { game: None, building: s.building },
            Some(Effect::DropGame),
        ),
        s.game is None ==> render_spec(s) == (s, None::<Effect>),
        s.game matches Some(g) && g.has_state && !g.running ==> render_spec(start_spec(s).0) == (
            start_spec(s).0,
            None::<Effect>,
        ),
{
}

/// The build button, for each kind of session: while a build runs nothing
/// happens; otherwise the game (if any) keeps running or being edited but
/// loses its state, a build starts, and the effects are, in order: the
/// scene file is created and the state written to it only for an edited
/// game (created, and left empty, for an edited game without a state),
/// then the state is dropped (when there is a game), then the build is
/// spawned.  A running game's state is never written.
pub proof fn lemma_build_effects(s: Session)
    ensures
        s.building ==> build_spec(s) == (s, Seq::<Effect>::empty()),
        !s.building ==> build_spec(s).0.building,
        !s.building ==> build_spec(s).0.game == match s.game {
            Some(g) => Some(GameSlot { has_state: false, running: g.running }),
            None => None,
        },
        !s.building && s.game is None ==> build_spec(s).1 == seq![Effect::SpawnBuild],
        !s.building && (s.game matches Some(g) && g.running) ==> build_spec(s).1 == seq![
            Effect::DropGameState,
            Effect::SpawnBuild,
        ],
        !s.building && (s.game matches Some(g) && !g.running && g.has_state) ==> build_spec(s).1
            == seq![
            Effect::CreateSceneFile,
            Effect::WriteScene,
            Effect::DropGameState,
            Effect::SpawnBuild,
        ],
        !s.building && (s.game matches Some(g) && !g.running && !g.has_state) ==> build_spec(s).1
            == seq![Effect::CreateSceneFile, Effect::DropGameState, Effect::SpawnBuild],
{
    if !s.building {
        match s.game {
            Some(g) => {
                if g.running {
                    assert(build_spec(s).1 =~= seq![Effect::DropGameState, Effect::SpawnBuild]);
                } else if g.has_state {
                    assert(build_spec(s).1 =~= seq![
                        Effect::CreateSceneFile,
                        Effect::WriteScene,
                        Effect::DropGameState,
                        Effect::SpawnBuild,
                    ]);
                } else {
                    assert(build_spec(s).1 =~= seq![
                        Effect::CreateSceneFile,
                        Effect::DropGameState,
                        Effect::SpawnBuild,
                    ]);
                }
            },
            None => {},
        }
    }
}

/// While the game runs, no button writes the scene file: saving, building,
/// starting and stopping never create or write it.
pub proof fn lemma_no_scene_write_while_running(s: Session)
    requires
        s.game matches Some(g) && g.running,
    ensures
        !save_effects(s).contains(Effect::CreateSceneFile),
        !save_effects(s).contains(Effect::WriteScene),
        !build_spec(s).1.contains(Effect::CreateSceneFile),
        !build_spec(s).1.contains(Effect::WriteScene),
        !start_spec(s).1.contains(Effect::CreateSceneFile),
        !start_spec(s).1.contains(Effect::WriteScene),
        !stop_spec(s).1.contains(Effect::CreateSceneFile),
        !stop_spec(s).1.contains(Effect::WriteScene),
{
    lemma_build_effects(s);
    let e = build_spec(s).1;
    if !s.building {
        assert(e[0] == Effect::DropGameState && e[1] == Effect::SpawnBuild);
    }
    assert(stop_spec(s).1 == seq![Effect::ReloadGame]);
    assert(seq![Effect::ReloadGame][0] == Effect::ReloadGame);
}

/// The other buttons and frames, for each kind of session.  Start: an
/// edited game runs from then on; the scene is saved first (created, and
/// written when there is a state), then the start hooks run when there is
/// a state; a running game or no game is left as it is.  Stop: a running
/// game is edited again, with its state read back from the scene file;
/// otherwise nothing happens.  A frame: a game frame for a running game with
/// a state, an editor frame for an edited one, none without a state.  The
/// end of a build: after a success the game is loaded anew and edited;
/// after a failure the game stays; either way no build runs any more.
pub proof fn lemma_session_steps(s: Session, success: bool)
    ensures
        (s.game matches Some(g) && !g.running) ==> start_spec(s) == (
            Session {
                game: Some(GameSlot { has_state: s.game->Some_0.has_state, running: true }),
                building: s.building,
            },
            if s.game->Some_0.has_state {
                seq![Effect::CreateSceneFile, Effect::WriteScene, Effect::StartGame]
            } else {
                seq![Effect::CreateSceneFile]
            },
        ),
        !(s.game matches Some(g) && !g.running) ==> start_spec(s) == (s, Seq::<Effect>::empty()),
        (s.game matches Some(g) && g.running) ==> stop_spec(s) == (
            Session { game: Some(GameSlot { has_state: true, running: false }), building: s.building },
            seq![Effect::ReloadGame],
        ),
        !(s.game matches Some(g) && g.running) ==> stop_spec(s) == (s, Seq::<Effect>::empty()),
        (s.game matches Some(g) && g.has_state && g.running) ==> update_spec(s) == Some(
            Effect::UpdateGame,
        ),
        (s.game matches Some(g) && g.has_state && !g.running) ==> update_spec(s) == Some(
            Effect::EditorUpdateGame,
        ),
        !(s.game matches Some(g) && g.has_state) ==> update_spec(s) == None::<Effect>,
        success ==> build_finished_spec(s, success) == (
            Session { game: Some(GameSlot { has_state: true, running: false }), building: false },
            seq![Effect::LoadGame],
        ),
        !success ==> build_finished_spec(s, success) == (
            Session { game: s.game, building: false },
            Seq::<Effect>::empty(),
        ),
{
    if s.game matches Some(g) && !g.running {
        if s.game->Some_0.has_state {
            assert(start_spec(s).1 =~= seq![Effect::CreateSceneFile, Effect::WriteScene, Effect::StartGame]);
        } else {
            assert(start_spec(s).1 =~= seq![Effect::CreateSceneFile]);
        }
    }
}

/// Saving, for each kind of session: an edited game's scene file is
/// created and its state written to it (only created when it has no state);
/// with a running game or no game nothing is saved.
pub proof fn lemma_save_effects(s: Session)
    ensures
        (s.game matches Some(g) && !g.running && g.has_state) ==> save_effects(s) == seq![
            Effect::CreateSceneFile,
            Effect::WriteScene,
        ],
        (s.game matches Some(g) && !g.running && !g.has_state) ==> save_effects(s) == seq![
            Effect::CreateSceneFile,
        ],
        !(s.game matches Some(g) && !g.running) ==> save_effects(s) == Seq::<Effect>::empty(),
{
}

} // verus!
