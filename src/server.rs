use crate::bignum::BigNat;
use crate::store::Store;
use crate::zkp::{
    accepts, is_prime, lemma_honest_prover_accepted, lemma_wrong_secret_rejected, response, ZKP,
};
use vstd::arithmetic::power::pow;
use rand::Rng;
use vstd::prelude::*;

verus! {

/// The length of a session token, and the least length of a challenge identifier.
pub const SESSION_ID_LEN: usize = 48;

/// A registered user: the public values `y1 = alpha^x mod p` and
/// `y2 = beta^x mod p` of the user's secret `x`.
#[derive(Clone, Debug)]
pub struct UserInfo {
    pub user_name: String,
    pub y1: BigNat,
    pub y2: BigNat,
}

/// A challenge in flight: the commitment `r1 = alpha^k mod p, r2 = beta^k mod p`
/// of a user and the challenge `c` the verifier drew for it.
#[derive(Clone, Debug)]
pub struct ChallengeSession {
    pub user_name: String,
    pub r1: BigNat,
    pub r2: BigNat,
    pub c: BigNat,
}

/// Why a request of the protocol was refused.
#[derive(Clone, Copy, Debug, PartialEq, Eq, Structural)]
pub enum AuthError {
    /// No user is registered under the name.
    UnknownUser,
    /// No challenge was issued under the identifier.
    UnknownSession,
    /// The answer does not satisfy both verification equations.
    VerificationFailed,
    /// The challenge identifier handed in is already in use.
    SessionIdInUse,
}

/// An ASCII letter or digit.
pub open spec fn is_alphanumeric(ch: char) -> bool {
    ('0' <= ch && ch <= '9') || ('a' <= ch && ch <= 'z') || ('A' <= ch && ch <= 'Z')
}

/// Relies on rand's `Alphanumeric` distribution over `thread_rng`: `size`
/// characters, each drawn from A-Z, a-z and 0-9.
#[verifier::external_body]
fn generate_random_string(size: usize) -> (r: String)
    ensures
        r@.len() == size,
        forall|i: int| 0 <= i < r@.len() ==> #[trigger] is_alphanumeric(r@[i]),
{
    rand::thread_rng().sample_iter(rand::distributions::Alphanumeric).take(size).map(char::from).collect()
}

/// Stores (or replaces) the public values of `user_name`.
pub fn register_user(users: &mut Store<UserInfo>, user_name: String, y1: BigNat, y2: BigNat)
    requires
        old(users).wf(),
    ensures
        final(users).wf(),
        final(users)@ == old(users)@.insert(user_name@, (UserInfo { user_name, y1, y2 })),
{
    let key = user_name.clone();
    users.insert(key, UserInfo { user_name, y1, y2 });
}

/// Opens a challenge session under `auth_id` for a user with commitment
/// `(r1, r2)` and challenge `c`; `registered` tells whether the user has
/// public values on record.
pub fn open_session(
    sessions: &mut Store<ChallengeSession>,
    registered: bool,
    user_name: String,
    r1: BigNat,
    r2: BigNat,
    c: BigNat,
    auth_id: String,
) -> (r: Result<(String, BigNat), AuthError>)
    requires
        old(sessions).wf(),
    ensures
        final(sessions).wf(),
        !registered ==> r is Err && r->Err_0 == AuthError::UnknownUser,
        registered && old(sessions)@.contains_key(auth_id@) ==> r is Err && r->Err_0
            == AuthError::SessionIdInUse,
        registered && !old(sessions)@.contains_key(auth_id@) ==> r is Ok,
        r is Err ==> final(sessions)@ == old(sessions)@,
        r is Ok ==> {
            &&& r->Ok_0.0 == auth_id
            &&& r->Ok_0.1@ == c@
            &&& final(sessions)@ == old(sessions)@.insert(
                auth_id@,
                (ChallengeSession { user_name, r1, r2, c }),
            )
        },
{
    if !registered {
        return Err(AuthError::UnknownUser);
    }
    if sessions.contains_key(&auth_id) {
        return Err(AuthError::SessionIdInUse);
    }
    let answer_c = c.duplicate();
    let key = auth_id.clone();
    sessions.insert(key, ChallengeSession { user_name, r1, r2, c });
    Ok((auth_id, answer_c))
}

/// Every character of `s` is an ASCII letter or digit.
pub open spec fn all_alphanumeric(s: Seq<char>) -> bool {
    forall|i: int| 0 <= i < s.len() ==> #[trigger] is_alphanumeric(s[i])
}

/// Issues a challenge for a registered user: draws `c` below the parameters'
/// bound and a random identifier of `SESSION_ID_LEN` characters, and opens the
/// session under it. Should that identifier be taken already, a longer one is
/// drawn, of a length that no stored identifier has.
pub fn create_challenge(
    zkp: &ZKP,
    sessions: &mut Store<ChallengeSession>,
    registered: bool,
    user_name: String,
    r1: BigNat,
    r2: BigNat,
) -> (r: Result<(String, BigNat), AuthError>)
    requires
        old(sessions).wf(),
        old(sessions)@.len() + SESSION_ID_LEN < usize::MAX,
        zkp.rng_upper_bound@ > 0,
    ensures
        final(sessions).wf(),
        r is Ok <==> registered,
        r is Err ==> r->Err_0 == AuthError::UnknownUser && final(sessions)@ == old(sessions)@,
        r is Ok ==> {
            let id = r->Ok_0.0;
            let c = r->Ok_0.1;
            &&& !old(sessions)@.contains_key(id@)
            &&& id@.len() >= SESSION_ID_LEN
            &&& all_alphanumeric(id@)
            &&& c@ < zkp.rng_upper_bound@
            &&& final(sessions)@ == old(sessions)@.insert(id@, final(sessions)@[id@])
            &&& final(sessions)@[id@].user_name == user_name
            &&& final(sessions)@[id@].r1 == r1
            &&& final(sessions)@[id@].r2 == r2
            &&& final(sessions)@[id@].c@ == c@
        },
{
    let c = zkp.generate_random();
    let mut auth_id = generate_random_string(SESSION_ID_LEN);
    if sessions.contains_key(&auth_id) {
        let len = sessions.unused_length(SESSION_ID_LEN);
        auth_id = generate_random_string(len);
    }
    open_session(sessions, registered, user_name, r1, r2, c, auth_id)
}

/// The public values on record for the user of `session`, if both exist.
pub fn lookup_credential<'a>(users: &'a Store<UserInfo>, session: Option<&ChallengeSession>) -> (r:
    Option<&'a UserInfo>)
    requires
        users.wf(),
    ensures
        session is None ==> r is None,
        session is Some ==> {
            let name = session->Some_0.user_name@;
            &&& (r is Some <==> users@.contains_key(name))
            &&& r is Some ==> *r->Some_0 == users@[name]
        },
{
    match session {
        Some(sess) => users.get(&sess.user_name),
        None => None,
    }
}

/// Judges the answer `s` to a challenge session against the user's public
/// values: a fresh session token when both equations hold.
pub fn answer(zkp: &ZKP, session: Option<&ChallengeSession>, user: Option<&UserInfo>, s: &BigNat) -> (r:
    Result<String, AuthError>)
    requires
        zkp.p@ > 0,
    ensures
        session is None ==> r is Err && r->Err_0 == AuthError::UnknownSession,
        session is Some && user is None ==> r is Err && r->Err_0 == AuthError::UnknownUser,
        session is Some && user is Some ==> {
            let sess = session->Some_0;
            let u = user->Some_0;
            let ok = accepts(
                zkp.alpha@,
                zkp.beta@,
                zkp.p@,
                u.y1@,
                u.y2@,
                sess.r1@,
                sess.r2@,
                s@,
                sess.c@,
            );
            &&& ok ==> r is Ok && r->Ok_0@.len() == SESSION_ID_LEN && all_alphanumeric(r->Ok_0@)
            &&& !ok ==> r is Err && r->Err_0 == AuthError::VerificationFailed
        },
{
    match session {
        None => Err(AuthError::UnknownSession),
        Some(sess) => match user {
            None => Err(AuthError::UnknownUser),
            Some(u) => {
                if zkp.verify(&u.y1, &u.y2, &sess.r1, &sess.r2, s, &sess.c) {
                    Ok(generate_random_string(SESSION_ID_LEN))
                } else {
                    Err(AuthError::VerificationFailed)
                }
            },
        },
    }
}

/// The verifier's side of the protocol: the group parameters, the users'
/// public values by name, and the challenge sessions by identifier.
pub struct AuthImpl {
    pub zkp: ZKP,
    pub user_info: Store<UserInfo>,
    pub auth_id_to_user: Store<ChallengeSession>,
}

/// How an answer `s` to the challenge `c` on commitment `(r1, r2)` of `user`
/// is judged against the public values on record: `None` when it is accepted.
pub open spec fn judge(
    zkp: ZKP,
    users: Map<Seq<char>, UserInfo>,
    user: Seq<char>,
    r1: nat,
    r2: nat,
    c: nat,
    s: nat,
) -> Option<AuthError> {
    if !users.contains_key(user) {
        Some(AuthError::UnknownUser)
    } else if accepts(
        zkp.alpha@,
        zkp.beta@,
        zkp.p@,
        users[user].y1@,
        users[user].y2@,
        r1,
        r2,
        s,
        c,
    ) {
        None
    } else {
        Some(AuthError::VerificationFailed)
    }
}

/// The state after registering `user_name` with `(y1, y2)` in `before`.
pub open spec fn registered(before: AuthImpl, after: AuthImpl, user_name: String, y1: BigNat, y2: BigNat) -> bool {
    &&& after.wf()
    &&& after.zkp == before.zkp
    &&& after.auth_id_to_user@ == before.auth_id_to_user@
    &&& after.user_info@ == before.user_info@.insert(user_name@, (UserInfo { user_name, y1, y2 }))
}

/// The state and result after a challenge request of `user` with commitment
/// `(r1, r2)` in `before`.
pub open spec fn challenged(
    before: AuthImpl,
    after: AuthImpl,
    user: Seq<char>,
    r1: BigNat,
    r2: BigNat,
    r: Result<(String, BigNat), AuthError>,
) -> bool {
    &&& after.wf()
    &&& after.zkp == before.zkp
    &&& after.user_info@ == before.user_info@
    &&& r is Ok <==> before.user_info@.contains_key(user)
    &&& r is Err ==> r->Err_0 == AuthError::UnknownUser && after.auth_id_to_user@
        == before.auth_id_to_user@
    &&& r is Ok ==> {
        let id = r->Ok_0.0@;
        let c = r->Ok_0.1@;
        let sess = after.auth_id_to_user@[id];
        &&& !before.auth_id_to_user@.contains_key(id)
        &&& id.len() >= SESSION_ID_LEN
        &&& all_alphanumeric(id)
        &&& c < before.zkp.rng_upper_bound@
        &&& after.auth_id_to_user@ == before.auth_id_to_user@.insert(id, sess)
        &&& sess.user_name@ == user
        &&& sess.r1 == r1
        &&& sess.r2 == r2
        &&& sess.c@ == c
    }
}

impl AuthImpl {
    /// Both stores are well formed and the parameters admit the arithmetic.
    pub open spec fn wf(&self) -> bool {
        &&& self.user_info.wf()
        &&& self.auth_id_to_user.wf()
        &&& self.zkp.p@ > 0
        &&& self.zkp.rng_upper_bound@ > 0
    }

    /// How an answer `s` under identifier `auth_id` is judged: `None` when it
    /// is accepted.
    pub open spec fn verdict(&self, auth_id: Seq<char>, s: nat) -> Option<AuthError> {
        if !self.auth_id_to_user@.contains_key(auth_id) {
            Some(AuthError::UnknownSession)
        } else {
            let sess = self.auth_id_to_user@[auth_id];
            judge(self.zkp, self.user_info@, sess.user_name@, sess.r1@, sess.r2@, sess.c@, s)
        }
    }

    /// A verifier with no users and no sessions.
    pub fn new(zkp: ZKP) -> (r: AuthImpl)
        requires
            zkp.p@ > 0,
            zkp.rng_upper_bound@ > 0,
        ensures
            r.wf(),
            r.zkp == zkp,
            r.user_info@ == Map::<Seq<char>, UserInfo>::empty(),
            r.auth_id_to_user@ == Map::<Seq<char>, ChallengeSession>::empty(),
    {
        AuthImpl { zkp, user_info: Store::new(), auth_id_to_user: Store::new() }
    }

    /// Registers `user_name` with public values `(y1, y2)`, replacing any
    /// earlier registration.
    pub fn register(&mut self, user_name: String, y1: BigNat, y2: BigNat)
        requires
            old(self).wf(),
        ensures
            registered(*old(self), *final(self), user_name, y1, y2),
    {
        register_user(&mut self.user_info, user_name, y1, y2);
    }

    /// Issues a challenge for the commitment `(r1, r2)` of `user_name`, who
    /// must be registered; returns the new session's identifier and `c`.
    pub fn create_authentication_challenge(&mut self, user_name: String, r1: BigNat, r2: BigNat) -> (r:
        Result<(String, BigNat), AuthError>)
        requires
            old(self).wf(),
            old(self).auth_id_to_user@.len() + SESSION_ID_LEN < usize::MAX,
        ensures
            challenged(*old(self), *final(self), user_name@, r1, r2, r),
    {
        let registered = self.user_info.contains_key(&user_name);
        create_challenge(&self.zkp, &mut self.auth_id_to_user, registered, user_name, r1, r2)
    }

    /// Judges the answer `s` to the session `auth_id`: a session token when
    /// it is accepted.
    pub fn verify_authentication(&self, auth_id: &String, s: &BigNat) -> (r: Result<String, AuthError>)
        requires
            self.wf(),
        ensures
            match r {
                Ok(token) => {
                    &&& self.verdict(auth_id@, s@) is None
                    &&& token@.len() == SESSION_ID_LEN
                    &&& all_alphanumeric(token@)
                },
                Err(e) => self.verdict(auth_id@, s@) == Some(e),
            },
    {
        let session = self.auth_id_to_user.get(auth_id);
        let user = lookup_credential(&self.user_info, session);
        answer(&self.zkp, session, user, s)
    }
}

/// Two challenges issued one after the other for the same user, before any
/// answer, open sessions under two different identifiers, and each session is
/// judged by its own commitment and challenge alone.
pub proof fn lemma_sessions_independent(
    a0: AuthImpl,
    a1: AuthImpl,
    a2: AuthImpl,
    user: Seq<char>,
    r1: BigNat,
    r2: BigNat,
    res1: Result<(String, BigNat), AuthError>,
    r1b: BigNat,
    r2b: BigNat,
    res2: Result<(String, BigNat), AuthError>,
    s1: nat,
    s2: nat,
)
    requires
        a0.wf(),
        challenged(a0, a1, user, r1, r2, res1),
        challenged(a1, a2, user, r1b, r2b, res2),
        res1 is Ok,
        res2 is Ok,
    ensures
        res1->Ok_0.0@ != res2->Ok_0.0@,
        a2.verdict(res1->Ok_0.0@, s1) == judge(
            a2.zkp,
            a2.user_info@,
            user,
            r1@,
            r2@,
            res1->Ok_0.1@,
            s1,
        ),
        a2.verdict(res2->Ok_0.0@, s2) == judge(
            a2.zkp,
            a2.user_info@,
            user,
            r1b@,
            r2b@,
            res2->Ok_0.1@,
            s2,
        ),
{
    let id1 = res1->Ok_0.0@;
    let id2 = res2->Ok_0.0@;
    assert(a1.auth_id_to_user@.contains_key(id1));
    assert(id1 != id2);
    assert(a2.auth_id_to_user@[id1] == a1.auth_id_to_user@[id1]);
}

/// Registering a user again replaces the public values on record: from then
/// on every answer in a session of that user is judged against the new
/// values `(y1, y2)` alone.
pub proof fn lemma_reregistration_overwrites(
    a0: AuthImpl,
    a1: AuthImpl,
    user_name: String,
    y1: BigNat,
    y2: BigNat,
    auth_id: Seq<char>,
    s: nat,
)
    requires
        a0.wf(),
        registered(a0, a1, user_name, y1, y2),
        a1.auth_id_to_user@.contains_key(auth_id),
        a1.auth_id_to_user@[auth_id].user_name@ == user_name@,
    ensures
        ({
            let sess = a1.auth_id_to_user@[auth_id];
            a1.verdict(auth_id, s) == if accepts(
                a1.zkp.alpha@,
                a1.zkp.beta@,
                a1.zkp.p@,
                y1@,
                y2@,
                sess.r1@,
                sess.r2@,
                s,
                sess.c@,
            ) {
                None::<AuthError>
            } else {
                Some(AuthError::VerificationFailed)
            }
        }),
{
}

/// `alpha^q = 1 (mod p)` and `beta = alpha^w mod p`: the group relation under
/// which an honest prover passes.
pub open spec fn valid_group(zkp: ZKP, w: nat) -> bool {
    &&& zkp.p@ > 0
    &&& zkp.q@ > 0
    &&& pow(zkp.alpha@ as int, zkp.q@) % (zkp.p@ as int) == 1
    &&& zkp.beta@ == pow(zkp.alpha@ as int, w) % (zkp.p@ as int)
}

/// `(g^e mod p)` as a natural number.
pub open spec fn power_mod(g: nat, e: nat, p: nat) -> nat {
    (pow(g as int, e) % (p as int)) as nat
}

/// A user registered with the public values of secret `x` who holds two open
/// challenges, with commitments of `k1` and `k2`, receives both, under two
/// different identifiers, and passes each with the honest answer computed
/// from that challenge's own `k` and `c`, in a valid group.
pub proof fn lemma_two_sessions_both_pass(
    a0: AuthImpl,
    a1: AuthImpl,
    a2: AuthImpl,
    user: Seq<char>,
    w: nat,
    x: nat,
    r1a: BigNat,
    r2a: BigNat,
    k1: nat,
    res1: Result<(String, BigNat), AuthError>,
    r1b: BigNat,
    r2b: BigNat,
    k2: nat,
    res2: Result<(String, BigNat), AuthError>,
)
    requires
        a0.wf(),
        valid_group(a0.zkp, w),
        a0.user_info@.contains_key(user),
        a0.user_info@[user].y1@ == power_mod(a0.zkp.alpha@, x, a0.zkp.p@),
        a0.user_info@[user].y2@ == power_mod(a0.zkp.beta@, x, a0.zkp.p@),
        r1a@ == power_mod(a0.zkp.alpha@, k1, a0.zkp.p@),
        r2a@ == power_mod(a0.zkp.beta@, k1, a0.zkp.p@),
        r1b@ == power_mod(a0.zkp.alpha@, k2, a0.zkp.p@),
        r2b@ == power_mod(a0.zkp.beta@, k2, a0.zkp.p@),
        challenged(a0, a1, user, r1a, r2a, res1),
        challenged(a1, a2, user, r1b, r2b, res2),
    ensures
        res1 is Ok,
        res2 is Ok,
        res1->Ok_0.0@ != res2->Ok_0.0@,
        a2.verdict(res1->Ok_0.0@, response(k1, res1->Ok_0.1@, x, a0.zkp.q@)) is None,
        a2.verdict(res2->Ok_0.0@, response(k2, res2->Ok_0.1@, x, a0.zkp.q@)) is None,
{
    let z = a0.zkp;
    let s1 = response(k1, res1->Ok_0.1@, x, z.q@);
    let s2 = response(k2, res2->Ok_0.1@, x, z.q@);
    lemma_sessions_independent(a0, a1, a2, user, r1a, r2a, res1, r1b, r2b, res2, s1, s2);
    lemma_honest_prover_accepted(z.alpha@, z.beta@, z.p@, z.q@, w, x, k1, res1->Ok_0.1@);
    lemma_honest_prover_accepted(z.alpha@, z.beta@, z.p@, z.q@, w, x, k2, res2->Ok_0.1@);
}

/// After a user registers again with the public values of a new secret
/// `x_new`, a challenge for the user succeeds and the honest answer from
/// `x_new` passes, in a valid group; when moreover `q` is prime and `alpha`
/// has order exactly `q`, the answer from any secret `x_old` that differs
/// from `x_new` modulo `q` fails for every challenge that is not a multiple
/// of `q`.
pub proof fn lemma_only_new_secret_passes(
    a0: AuthImpl,
    a1: AuthImpl,
    a2: AuthImpl,
    user_name: String,
    y1: BigNat,
    y2: BigNat,
    w: nat,
    x_new: nat,
    x_old: nat,
    r1: BigNat,
    r2: BigNat,
    k: nat,
    res: Result<(String, BigNat), AuthError>,
)
    requires
        a0.wf(),
        valid_group(a0.zkp, w),
        y1@ == power_mod(a0.zkp.alpha@, x_new, a0.zkp.p@),
        y2@ == power_mod(a0.zkp.beta@, x_new, a0.zkp.p@),
        registered(a0, a1, user_name, y1, y2),
        r1@ == power_mod(a0.zkp.alpha@, k, a0.zkp.p@),
        r2@ == power_mod(a0.zkp.beta@, k, a0.zkp.p@),
        challenged(a1, a2, user_name@, r1, r2, res),
    ensures
        res is Ok,
        a2.verdict(res->Ok_0.0@, response(k, res->Ok_0.1@, x_new, a0.zkp.q@)) is None,
        ({
            let z = a0.zkp;
            let c = res->Ok_0.1@;
            is_prime(z.q@) && (forall|i: nat, j: nat|
                i < z.q@ && j < z.q@ && #[trigger] (pow(z.alpha@ as int, i) % (z.p@ as int))
                    == #[trigger] (pow(z.alpha@ as int, j) % (z.p@ as int)) ==> i == j) && (x_old as int)
                % (z.q@ as int) != (x_new as int) % (z.q@ as int) && (c as int) % (z.q@ as int) != 0
                ==> a2.verdict(res->Ok_0.0@, response(k, c, x_old, z.q@)) == Some(
                AuthError::VerificationFailed,
            )
        }),
{
    let z = a0.zkp;
    let c = res->Ok_0.1@;
    assert(a1.user_info@.contains_key(user_name@));
    assert(a2.user_info@[user_name@] == (UserInfo { user_name, y1, y2 }));
    lemma_honest_prover_accepted(z.alpha@, z.beta@, z.p@, z.q@, w, x_new, k, c);
    if is_prime(z.q@) && (forall|i: nat, j: nat|
        i < z.q@ && j < z.q@ && #[trigger] (pow(z.alpha@ as int, i) % (z.p@ as int)) == #[trigger] (pow(
            z.alpha@ as int,
            j,
        ) % (z.p@ as int)) ==> i == j) && (x_old as int) % (z.q@ as int) != (x_new as int) % (
    z.q@ as int) && (c as int) % (z.q@ as int) != 0 {
        lemma_wrong_secret_rejected(z.alpha@, z.beta@, z.p@, z.q@, x_new, x_old, k, c);
    }
}

} // verus!
