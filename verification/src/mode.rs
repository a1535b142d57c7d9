//! What a run is asked to do: serve, sync locally, or sync to a peer.

use crate::sync::SyncError;
use vstd::prelude::*;
use vstd::slice::slice_subrange;
use vstd::slice::slice_to_vec;

verus! {

/// What a run does.
#[derive(Debug, PartialEq, Eq)]
pub enum Mode {
    /// Wait for a client and take its file.
    Serve,
    /// Sync `source` onto `destination` on this host.
    Local { source: Vec<u8>, destination: Vec<u8> },
    /// Sync `source` onto `destination` on the host `host`.
    Remote { host: Vec<u8>, source: Vec<u8>, destination: Vec<u8> },
}

/// Mathematical content of a [`Mode`].
pub enum ModeView {
    Serve,
    Local { source: Seq<u8>, destination: Seq<u8> },
    Remote { host: Seq<u8>, source: Seq<u8>, destination: Seq<u8> },
}

impl View for Mode {
    type V = ModeView;

    open spec fn view(&self) -> ModeView {
        match self {
            Mode::Serve => ModeView::Serve,
            Mode::Local { source, destination } => ModeView::Local {
                source: source@,
                destination: destination@,
            },
            Mode::Remote { host, source, destination } => ModeView::Remote {
                host: host@,
                source: source@,
                destination: destination@,
            },
        }
    }
}

/// The first position at or after `from` that holds a colon; the length of
/// `text` if there is none.
pub open spec fn colon_at(text: Seq<u8>, from: int) -> int
    decreases text.len() - from,
{
    if 0 <= from < text.len() && text[from] != 58 {
        colon_at(text, from + 1)
    } else {
        from
    }
}

/// The mode that the arguments of a run ask for. With the server flag
/// the run serves, whatever else is given. Without it a source and a
/// destination are needed. A destination with a colon names a peer: the host
/// stands before the first colon and the path behind it, up to the next
/// colon if there is one. Any other destination is a path on this host.
pub open spec fn chosen_mode(server: bool, source: Option<Seq<u8>>, destination: Option<Seq<u8>>)
    -> Result<ModeView, SyncError> {
    if server {
        Ok(ModeView::Serve)
    } else {
        match (source, destination) {
            (Some(from), Some(to)) => {
                let first = colon_at(to, 0);
                if first < to.len() {
                    Ok(
                        ModeView::Remote {
                            host: to.subrange(0, first),
                            source: from,
                            destination: to.subrange(first + 1, colon_at(to, first + 1)),
                        },
                    )
                } else {
                    Ok(ModeView::Local { source: from, destination: to })
                }
            },
            _ => Err(SyncError::ConfigInvalid),
        }
    }
}

/// The position of the first colon of `text` at or after `from`.
pub fn find_colon(text: &[u8], from: usize) -> (at: usize)
    requires
        from <= text.len(),
    ensures
        at == colon_at(text@, from as int),
        from <= at <= text.len(),
{
    let mut at: usize = from;
    while at < text.len() && text[at] != 58
        invariant
            from <= at <= text.len(),
            colon_at(text@, from as int) == colon_at(text@, at as int),
        decreases text.len() - at,
    {
        at += 1;
    }
    at
}

/// The content of optional text.
pub open spec fn text_view(text: Option<&[u8]>) -> Option<Seq<u8>> {
    match text {
        Some(bytes) => Some(bytes@),
        None => None,
    }
}

/// Chooses what a run does from its arguments.
pub fn choose_mode(server: bool, source: Option<&[u8]>, destination: Option<&[u8]>) -> (mode:
    Result<Mode, SyncError>)
    ensures
        match mode {
            Ok(m) => chosen_mode(server, text_view(source), text_view(destination)) == Ok::<
                ModeView,
                SyncError,
            >(m@),
            Err(e) => chosen_mode(server, text_view(source), text_view(destination)) == Err::<
                ModeView,
                SyncError,
            >(e),
        },
{
    if server {
        return Ok(Mode::Serve);
    }
    match (source, destination) {
        (Some(from), Some(to)) => {
            let first = find_colon(to, 0);
            if first < to.len() {
                let second = find_colon(to, first + 1);
                Ok(
                    Mode::Remote {
                        host: slice_to_vec(slice_subrange(to, 0, first)),
                        source: slice_to_vec(from),
                        destination: slice_to_vec(slice_subrange(to, first + 1, second)),
                    },
                )
            } else {
                Ok(Mode::Local { source: slice_to_vec(from), destination: slice_to_vec(to) })
            }
        },
        _ => Err(SyncError::ConfigInvalid),
    }
}

} // verus!
