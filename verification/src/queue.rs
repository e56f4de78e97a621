use vstd::prelude::*;

use crate::music_library::clone_tracks;
use crate::playlist::{advanced_pos, dyn_weight, next_rel, pl_wf, Playlist, PlaylistView};
use crate::track::{Track, TrackView};

verus! {

/// The playback scheduler's coarse state: stopped, asked to play but not
/// yet sounding, or sounding.
#[derive(Clone, Copy, PartialEq, Eq, Structural, Debug)]
pub enum QueueActivity {
    Stopped,
    Preparing,
    Playing,
}

/// A command a caller hands the scheduler; the playback loop honors it at
/// the start of its next poll.
#[derive(Clone, Copy, PartialEq, Eq, Structural, Debug)]
pub enum QueueAction {
    SkipForward,
    SkipBack,
}

/// What the playback loop must do after one poll: nothing, clear the
/// buffered audio, or decode this track and hand it to the sink.
pub enum QueueStep {
    Wait,
    ClearSink,
    Play(Track),
}

/// The mathematical value of a poll outcome.
pub enum QueueStepView {
    Wait,
    ClearSink,
    Play(TrackView),
}

/// The value of a poll outcome.
pub open spec fn step_view(s: QueueStep) -> QueueStepView {
    match s {
        QueueStep::Wait => QueueStepView::Wait,
        QueueStep::ClearSink => QueueStepView::ClearSink,
        QueueStep::Play(t) => QueueStepView::Play(t@),
    }
}

/// The mathematical value of the playback scheduler: the single point of
/// truth the controlling caller and the playback loop share.
#[verifier::ext_equal]
pub struct QueueView {
    pub playlist: Option<PlaylistView>,
    pub history: Seq<TrackView>,
    pub activity: QueueActivity,
    pub current_track: Option<TrackView>,
    pub pending_action: Option<QueueAction>,
}

/// The playback scheduler. It owns the playlist, the played history and
/// the activity state; one `step` call makes the whole read-decide-write
/// cycle of one poll of the playback loop, so a caller that guards the
/// queue with one lock gets every transition as one critical section.
pub struct Queue {
    playlist: Option<Playlist>,
    history: Vec<Track>,
    activity: QueueActivity,
    current_track: Option<Track>,
    pending_action: Option<QueueAction>,
}

impl View for Queue {
    type V = QueueView;

    closed spec fn view(&self) -> QueueView {
        QueueView {
            playlist: match self.playlist {
                Some(p) => Some(p@),
                None => None,
            },
            history: self.history.deep_view(),
            activity: self.activity,
            current_track: match self.current_track {
                Some(t) => Some(t@),
                None => None,
            },
            pending_action: self.pending_action,
        }
    }
}

/// The queue's playlist, when it has one, keeps its cursor within its
/// track list, and its dynamic weight fits the machine.
pub open spec fn q_wf(v: QueueView) -> bool {
    match v.playlist {
        Some(p) => pl_wf(p) && dyn_weight(p) <= usize::MAX,
        None => true,
    }
}

/// How one poll of the playback loop relates the queue before to the
/// queue after and to what the loop must do: a pending skip clears the
/// sink; a stopped queue waits; buffered audio waits; otherwise the next
/// track is fetched and submitted, or, when the playlist is exhausted or
/// absent, playback stops.
pub open spec fn queue_step_rel(
    pre: QueueView,
    post: QueueView,
    out: QueueStepView,
    sink_has_audio: bool,
) -> bool {
    if pre.pending_action is Some {
        &&& post == (QueueView { pending_action: None, ..pre })
        &&& out == QueueStepView::ClearSink
    } else if pre.activity is Stopped {
        &&& post == pre
        &&& out == QueueStepView::Wait
    } else if sink_has_audio {
        &&& post == pre
        &&& out == QueueStepView::Wait
    } else {
        match pre.playlist {
            None => {
                &&& post == (QueueView {
                    activity: QueueActivity::Stopped,
                    current_track: None,
                    ..pre
                })
                &&& out == QueueStepView::Wait
            },
            Some(pl) => exists|pl2: PlaylistView, tr: Option<TrackView>|
                {
                    &&& #[trigger] next_rel(pl, pl2, tr)
                    &&& pl_wf(pl2)
                    &&& match tr {
                        Some(t) => {
                            &&& post == (QueueView {
                                playlist: Some(pl2),
                                history: pre.history.push(t),
                                activity: QueueActivity::Playing,
                                current_track: Some(t),
                                ..pre
                            })
                            &&& out == QueueStepView::Play(t)
                        },
                        None => {
                            &&& post == (QueueView {
                                playlist: Some(pl2),
                                activity: QueueActivity::Stopped,
                                current_track: None,
                                ..pre
                            })
                            &&& out == QueueStepView::Wait
                        },
                    }
                },
        }
    }
}

/// Along a run of polls with the sink always empty and no pending skips,
/// a queue playing a purely static playlist has, after `k` polls, played
/// exactly the first `k` tracks into its history, with the cursor one
/// step behind.
proof fn lemma_queue_run_state(
    qs: Seq<QueueView>,
    outs: Seq<QueueStepView>,
    pl0: PlaylistView,
    k: int,
)
    requires
        qs.len() == outs.len() + 1,
        forall|m: int|
            0 <= m < outs.len() ==> queue_step_rel(qs[m], #[trigger] qs[m + 1], outs[m], false),
        qs[0].pending_action is None,
        !(qs[0].activity is Stopped),
        qs[0].playlist == Some(pl0),
        pl0.pos is None,
        dyn_weight(pl0) == 0,
        0 <= k <= pl0.tracks.len(),
        k < qs.len(),
    ensures
        qs[k].pending_action is None,
        !(qs[k].activity is Stopped),
        qs[k].history == qs[0].history + pl0.tracks.take(k),
        match qs[k].playlist {
            Some(pl) => {
                &&& pl.tracks == pl0.tracks
                &&& dyn_weight(pl) == 0
                &&& pl.pos == (if k == 0 {
                    None
                } else {
                    Some(k - 1)
                })
            },
            None => false,
        },
    decreases k,
{
    if k == 0 {
        assert(qs[0].history =~= qs[0].history + pl0.tracks.take(0));
    } else {
        lemma_queue_run_state(qs, outs, pl0, k - 1);
        let m = k - 1;
        assert(queue_step_rel(qs[m], qs[m + 1], outs[m], false));
        assert(qs[m + 1] == qs[k]);
        let pre_pl = match qs[m].playlist {
            Some(pl) => pl,
            None => pl0,
        };
        let (pl2, tr) = choose|pl2: PlaylistView, tr: Option<TrackView>|
            {
                &&& #[trigger] next_rel(pre_pl, pl2, tr)
                &&& pl_wf(pl2)
                &&& match tr {
                    Some(t) => {
                        &&& qs[m + 1] == (QueueView {
                            playlist: Some(pl2),
                            history: qs[m].history.push(t),
                            activity: QueueActivity::Playing,
                            current_track: Some(t),
                            ..qs[m]
                        })
                        &&& outs[m] == QueueStepView::Play(t)
                    },
                    None => {
                        &&& qs[m + 1] == (QueueView {
                            playlist: Some(pl2),
                            activity: QueueActivity::Stopped,
                            current_track: None,
                            ..qs[m]
                        })
                        &&& outs[m] == QueueStepView::Wait
                    },
                }
            };
        assert(next_rel(pre_pl, pl2, tr));
        assert(advanced_pos(pre_pl.tracks.len() as int, pre_pl.pos) == m);
        assert(tr == Some(pl0.tracks[m]));
        assert(qs[k].history =~= qs[0].history + pl0.tracks.take(k));
    }
}

/// The playback scheduler plays a static playlist through: polling a
/// queue whose playlist holds only static tracks, with the sink always
/// empty and no skips, appends exactly those tracks, in order, to the
/// history, and then stops by itself.
pub proof fn lemma_queue_plays_playlist_through(
    qs: Seq<QueueView>,
    outs: Seq<QueueStepView>,
    pl0: PlaylistView,
)
    requires
        qs.len() == outs.len() + 1,
        forall|m: int|
            0 <= m < outs.len() ==> queue_step_rel(qs[m], #[trigger] qs[m + 1], outs[m], false),
        qs[0].pending_action is None,
        !(qs[0].activity is Stopped),
        qs[0].playlist == Some(pl0),
        pl0.pos is None,
        dyn_weight(pl0) == 0,
        outs.len() == pl0.tracks.len() + 1,
    ensures
        qs[outs.len() as int].history == qs[0].history + pl0.tracks,
        qs[outs.len() as int].activity is Stopped,
{
    let kk = pl0.tracks.len() as int;
    lemma_queue_run_state(qs, outs, pl0, kk);
    let m = kk;
    assert(queue_step_rel(qs[m], qs[m + 1], outs[m], false));
    let pre_pl = match qs[m].playlist {
        Some(pl) => pl,
        None => pl0,
    };
    let (pl2, tr) = choose|pl2: PlaylistView, tr: Option<TrackView>|
        {
            &&& #[trigger] next_rel(pre_pl, pl2, tr)
            &&& pl_wf(pl2)
            &&& match tr {
                Some(t) => {
                    &&& qs[m + 1] == (QueueView {
                        playlist: Some(pl2),
                        history: qs[m].history.push(t),
                        activity: QueueActivity::Playing,
                        current_track: Some(t),
                        ..qs[m]
                    })
                    &&& outs[m] == QueueStepView::Play(t)
                },
                None => {
                    &&& qs[m + 1] == (QueueView {
                        playlist: Some(pl2),
                        activity: QueueActivity::Stopped,
                        current_track: None,
                        ..qs[m]
                    })
                    &&& outs[m] == QueueStepView::Wait
                },
            }
        };
    assert(next_rel(pre_pl, pl2, tr));
    assert(advanced_pos(pre_pl.tracks.len() as int, pre_pl.pos) == pre_pl.tracks.len());
    assert(tr is None);
    assert(qs[m + 1].history =~= qs[0].history + pl0.tracks);
}

impl Queue {
    /// A new scheduler: no playlist, empty history, stopped.
    pub fn new() -> (r: Queue)
        ensures
            r@ == (QueueView {
                playlist: None,
                history: Seq::empty(),
                activity: QueueActivity::Stopped,
                current_track: None,
                pending_action: None,
            }),
            q_wf(r@),
    {
        let r = Queue {
            playlist: None,
            history: Vec::new(),
            activity: QueueActivity::Stopped,
            current_track: None,
            pending_action: None,
        };
        proof {
            assert(r@ =~= (QueueView {
                playlist: None,
                history: Seq::empty(),
                activity: QueueActivity::Stopped,
                current_track: None,
                pending_action: None,
            }));
        }
        r
    }

    /// Hand the scheduler the playlist it is to play.
    pub fn use_playlist(&mut self, playlist: Playlist)
        requires
            pl_wf(playlist@),
            dyn_weight(playlist@) <= usize::MAX,
        ensures
            final(self)@ == (QueueView { playlist: Some(playlist@), ..old(self)@ }),
            q_wf(old(self)@) ==> q_wf(final(self)@),
    {
        self.playlist = Some(playlist);
    }

    /// Take the scheduler's playlist back, giving the queue up.
    pub fn get_playlist(self) -> (r: Option<Playlist>)
        ensures
            match r {
                Some(p) => self@.playlist == Some(p@),
                None => self@.playlist is None,
            },
    {
        self.playlist
    }

    /// Ask for playback: a stopped scheduler starts preparing; one
    /// already preparing or playing is left as it is. The caller must
    /// also keep the playback loop polling `step`.
    pub fn play(&mut self)
        ensures
            final(self)@ == (QueueView {
                activity: match old(self)@.activity {
                    QueueActivity::Stopped => QueueActivity::Preparing,
                    a => a,
                },
                ..old(self)@
            }),
            q_wf(old(self)@) ==> q_wf(final(self)@),
    {
        match self.activity {
            QueueActivity::Stopped => {
                self.activity = QueueActivity::Preparing;
            },
            _ => {},
        }
    }

    /// Request a skip to the next track; the loop honors it at its next
    /// poll by clearing the sink.
    pub fn skip_forward(&mut self)
        ensures
            final(self)@ == (QueueView {
                pending_action: Some(QueueAction::SkipForward),
                ..old(self)@
            }),
            q_wf(old(self)@) ==> q_wf(final(self)@),
    {
        self.pending_action = Some(QueueAction::SkipForward);
    }

    /// Request a skip backward; the loop honors it at its next poll by
    /// clearing the sink.
    pub fn skip_back(&mut self)
        ensures
            final(self)@ == (QueueView {
                pending_action: Some(QueueAction::SkipBack),
                ..old(self)@
            }),
            q_wf(old(self)@) ==> q_wf(final(self)@),
    {
        self.pending_action = Some(QueueAction::SkipBack);
    }

    /// Stop playback. The playback loop calls this when a track fails to
    /// decode: the failure is surfaced and playback halts rather than
    /// skipping on silently.
    pub fn stop(&mut self)
        ensures
            final(self)@ == (QueueView {
                activity: QueueActivity::Stopped,
                current_track: None,
                ..old(self)@
            }),
            q_wf(old(self)@) ==> q_wf(final(self)@),
    {
        self.activity = QueueActivity::Stopped;
        self.current_track = None;
    }

    /// Whether the scheduler is actively attempting playback: preparing
    /// counts as playing to a caller, even before the first track sounds.
    pub fn is_playing(&self) -> (r: bool)
        ensures
            r == (self@.activity != QueueActivity::Stopped),
    {
        match self.activity {
            QueueActivity::Stopped => false,
            _ => true,
        }
    }

    /// A copy of the played history, oldest first.
    pub fn get_history(&self) -> (r: Vec<Track>)
        ensures
            r.deep_view() == self@.history,
    {
        clone_tracks(&self.history)
    }

    /// Replace the history wholesale; used to restore persisted state.
    pub fn set_history(&mut self, new_history: Vec<Track>)
        ensures
            final(self)@ == (QueueView { history: new_history.deep_view(), ..old(self)@ }),
            q_wf(old(self)@) ==> q_wf(final(self)@),
    {
        self.history = new_history;
    }

    /// One poll of the playback loop, as a single atomic decide-and-
    /// mutate step: honor a pending skip, idle while stopped or while
    /// audio is buffered, and otherwise fetch the next track and either
    /// submit it or stop on exhaustion.
    pub fn step(&mut self, sink_has_audio: bool) -> (r: QueueStep)
        requires
            q_wf(old(self)@),
        ensures
            q_wf(final(self)@),
            queue_step_rel(old(self)@, final(self)@, step_view(r), sink_has_audio),
    {
        match self.pending_action {
            Some(_) => {
                self.pending_action = None;
                proof {
                    assert(self@ =~= (QueueView { pending_action: None, ..old(self)@ }));
                }
                return QueueStep::ClearSink;
            },
            None => {},
        }
        match self.activity {
            QueueActivity::Stopped => {
                proof {
                    assert(self@ =~= old(self)@);
                }
                return QueueStep::Wait;
            },
            _ => {},
        }
        if sink_has_audio {
            proof {
                assert(self@ =~= old(self)@);
            }
            return QueueStep::Wait;
        }
        let taken = self.playlist.take();
        match taken {
            None => {
                self.activity = QueueActivity::Stopped;
                self.current_track = None;
                proof {
                    assert(self@ =~= (QueueView {
                        activity: QueueActivity::Stopped,
                        current_track: None,
                        ..old(self)@
                    }));
                }
                QueueStep::Wait
            },
            Some(mut pl) => {
                let nt = pl.next();
                let ghost pl2 = pl@;
                self.playlist = Some(pl);
                match nt {
                    Some(track) => {
                        self.current_track = Some(track.clone());
                        self.history.push(track.clone());
                        self.activity = QueueActivity::Playing;
                        proof {
                            assert(self.history.deep_view() =~= old(self)@.history.push(
                                track@,
                            ));
                            assert(self@ =~= (QueueView {
                                playlist: Some(pl2),
                                history: old(self)@.history.push(track@),
                                activity: QueueActivity::Playing,
                                current_track: Some(track@),
                                ..old(self)@
                            }));
                        }
                        QueueStep::Play(track)
                    },
                    None => {
                        self.current_track = None;
                        self.activity = QueueActivity::Stopped;
                        proof {
                            assert(self@ =~= (QueueView {
                                playlist: Some(pl2),
                                activity: QueueActivity::Stopped,
                                current_track: None,
                                ..old(self)@
                            }));
                        }
                        QueueStep::Wait
                    },
                }
            },
        }
    }
}

} // verus!
