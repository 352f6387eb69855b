//! Password-less authentication with a Chaum-Pedersen proof of equal discrete logarithms.

mod bignum;
mod server;
mod store;
mod zkp;

pub use bignum::{be_value, BigNat};
pub use server::{
    all_alphanumeric, answer, challenged, create_challenge, is_alphanumeric, judge,
    lemma_only_new_secret_passes, lemma_reregistration_overwrites, lemma_sessions_independent,
    lemma_two_sessions_both_pass, lookup_credential, open_session, power_mod, register_user,
    registered, valid_group, AuthError, AuthImpl, ChallengeSession, UserInfo, SESSION_ID_LEN,
};
pub use store::Store;
pub use zkp::{
    accepts, is_prime, lemma_honest_prover_accepted, lemma_wrong_secret_rejected, rebuilt, response, ZKP,
};
