//! Access tokens: when one is used, when a new one is asked for, and what is kept of the answer.

use vstd::prelude::*;
use vstd::string::*;
use crate::time::{in_span_range, law_whole_seconds, num_seconds, whole_seconds};

verus! {

/// Seconds after which an access token is asked for anew.
pub const TOKEN_LIFETIME_SECS: i64 = 3000;

/// The token that was obtained last, and when, in nanoseconds on a clock that does not go back.
#[derive(Debug)]
pub struct TokenState {
    pub token: String,
    pub obtained_at: i128,
}

/// A token state as plain values.
#[verifier::ext_equal]
pub struct TokenModel {
    pub token: Seq<char>,
    pub obtained_at: int,
}

impl View for TokenState {
    type V = TokenModel;

    open spec fn view(&self) -> TokenModel {
        TokenModel { token: self.token@, obtained_at: self.obtained_at as int }
    }
}

impl TokenModel {
    /// Whether the token is at its end at `now`.
    pub open spec fn stale(self, now: int) -> bool {
        whole_seconds(now - self.obtained_at) > TOKEN_LIFETIME_SECS
    }
}

/// What is done when a token is needed.
#[derive(Debug)]
pub enum TokenAction {
    /// Use this token; nothing is asked for.
    Use(String),
    /// Ask for a new token, once.
    Refresh,
}

/// What to do when a token is needed at `now`.
pub fn token_action(state: &TokenState, now: i128) -> (r: TokenAction)
    requires
        in_span_range(now - state.obtained_at),
    ensures
        match r {
            TokenAction::Use(token) => !state@.stale(now as int) && token@ == state@.token,
            TokenAction::Refresh => state@.stale(now as int),
        },
{
    if num_seconds(now - state.obtained_at) > TOKEN_LIFETIME_SECS {
        TokenAction::Refresh
    } else {
        TokenAction::Use(state.token.clone())
    }
}

/// The state once the answer to a refresh is there, at `at`: a new token takes the place of the old
/// one, and without one everything stays as it was.
pub open spec fn refreshed(state: TokenModel, answer: Option<Seq<char>>, at: int) -> TokenModel {
    match answer {
        Some(token) => TokenModel { token, obtained_at: at },
        None => state,
    }
}

/// Takes the answer to a refresh, which came at `at`, and hands on the new token or the error.
pub fn take_answer<E>(state: &mut TokenState, answer: Result<String, E>, at: i128) -> (r: Result<
    String,
    E,
>)
    ensures
        final(state)@ == refreshed(
            old(state)@,
            match answer {
                Ok(token) => Some(token@),
                Err(_) => None,
            },
            at as int,
        ),
        match answer {
            Ok(token) => r matches Ok(t) && t@ == token@,
            Err(e) => r == Err::<String, E>(e),
        },
{
    match answer {
        Ok(token) => {
            state.token = token.clone();
            state.obtained_at = at;
            Ok(token)
        },
        Err(e) => Err(e),
    }
}

/// A token is reused until it is more than `TOKEN_LIFETIME_SECS` old: one that a refresh brought is
/// the one to use for that long.
pub proof fn law_token_reused(state: TokenModel, token: Seq<char>, at: int, now: int)
    requires
        whole_seconds(now - at) <= TOKEN_LIFETIME_SECS,
    ensures
        !refreshed(state, Some(token), at).stale(now),
        refreshed(state, Some(token), at).token == token,
{
}

/// A refresh that failed leaves token and age as they were, so that the next need asks again.
pub proof fn law_failed_refresh_asks_again(state: TokenModel, at: int, now: int)
    requires
        state.stale(at),
        at <= now,
    ensures
        refreshed(state, None, at) == state,
        refreshed(state, None, at).stale(now),
{
}

/// A token is used for 3000 seconds and the fraction behind them; at the next whole second a new one
/// is asked for.
pub proof fn law_token_age(state: TokenModel, now: int)
    ensures
        state.stale(now) <==> now - state.obtained_at >= 3_001 * 1_000_000_000,
{
    let age = now - state.obtained_at;
    law_whole_seconds(age);
    law_whole_seconds(-age);
}

/// Once a refresh brought a token, that token and the moment of the answer are kept.
pub proof fn law_refresh_kept(state: TokenModel, token: Seq<char>, at: int)
    ensures
        refreshed(state, Some(token), at).token == token,
        refreshed(state, Some(token), at).obtained_at == at,
{
}

} // verus!
