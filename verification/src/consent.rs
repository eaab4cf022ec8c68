//! What the user has agreed to: capture at all, and sharing with a destination.

use crate::digest;
use crate::digest::{any_hex, hex_digest};
use crate::privacy::{PRIVACY_NOTICE_VERSION, PolicyFault, PrivacyError};
use crate::text;
use crate::text::{glue3, text_equal, trim};
use vstd::prelude::*;
use vstd::string::*;
use vstd::utf8::*;

verus! {

/// Agreement to share with one destination.
#[derive(Debug)]
pub struct SharingConsent {
    pub fingerprint: String,
    pub notice_version: u32,
    pub auto_push: bool,
}

/// The contents of [`SharingConsent`].
#[verifier::ext_equal]
pub struct ConsentModel {
    pub fingerprint: Seq<char>,
    pub notice_version: u32,
    pub auto_push: bool,
}

impl View for SharingConsent {
    type V = ConsentModel;

    open spec fn view(&self) -> ConsentModel {
        ConsentModel {
            fingerprint: self.fingerprint@,
            notice_version: self.notice_version,
            auto_push: self.auto_push,
        }
    }
}

impl Clone for SharingConsent {
    fn clone(&self) -> (r: Self)
        ensures
            r@ == self@,
    {
        SharingConsent {
            fingerprint: self.fingerprint.clone(),
            notice_version: self.notice_version,
            auto_push: self.auto_push,
        }
    }
}

impl SharingConsent {
    /// Whether two records agree in every field.
    pub fn same(&self, other: &Self) -> (r: bool)
        ensures
            r == (self@ == other@),
    {
        self.fingerprint == other.fingerprint
            && self.notice_version == other.notice_version
            && self.auto_push == other.auto_push
    }
}

/// The contents of a list of records.
pub open spec fn consent_models(s: Seq<SharingConsent>) -> Seq<ConsentModel> {
    s.map_values(|x: SharingConsent| x@)
}

/// A copy of a list.
pub fn copy_consents(a: &Vec<SharingConsent>) -> (r: Vec<SharingConsent>)
    ensures
        consent_models(r@) == consent_models(a@),
{
    let mut out: Vec<SharingConsent> = Vec::new();
    let mut i: usize = 0;
    while i < a.len()
        invariant
            i <= a.len(),
            consent_models(out@) == consent_models(a@).take(i as int),
        decreases a.len() - i,
    {
        let ghost held = consent_models(out@);
        out.push(a[i].clone());
        assert(consent_models(out@) =~= held.push(a@[i as int]@));
        i += 1;
        assert(consent_models(out@) =~= consent_models(a@).take(i as int));
    }
    assert(consent_models(a@).take(a@.len() as int) =~= consent_models(a@));
    out
}

/// Whether two lists agree.
pub fn same_consents(a: &Vec<SharingConsent>, b: &Vec<SharingConsent>) -> (r: bool)
    ensures
        r == (consent_models(a@) == consent_models(b@)),
{
    let ghost x = consent_models(a@);
    let ghost y = consent_models(b@);
    if a.len() != b.len() {
        assert(x.len() != y.len());
        return false;
    }
    let mut i: usize = 0;
    while i < a.len()
        invariant
            i <= a.len(),
            a.len() == b.len(),
            x == consent_models(a@),
            y == consent_models(b@),
            forall|k: int| 0 <= k < i ==> x[k] == y[k],
        decreases a.len() - i,
    {
        assert(x[i as int] == a@[i as int]@ && y[i as int] == b@[i as int]@);
        if !a[i].same(&b[i]) {
            return false;
        }
        i += 1;
    }
    assert(x =~= y);
    true
}

/// The privacy state of a repository.
#[derive(Debug)]
pub struct PrivacyFile {
    pub version: u32,
    pub capture_acknowledged_version: Option<u32>,
    pub sharing: Vec<SharingConsent>,
}

/// The contents of [`PrivacyFile`].
#[verifier::ext_equal]
pub struct PrivacyModel {
    pub version: u32,
    pub capture_acknowledged_version: Option<u32>,
    pub sharing: Seq<ConsentModel>,
}

impl View for PrivacyFile {
    type V = PrivacyModel;

    open spec fn view(&self) -> PrivacyModel {
        PrivacyModel {
            version: self.version,
            capture_acknowledged_version: self.capture_acknowledged_version,
            sharing: consent_models(self.sharing@),
        }
    }
}

impl Clone for PrivacyFile {
    fn clone(&self) -> (r: Self)
        ensures
            r@ == self@,
    {
        PrivacyFile {
            version: self.version,
            capture_acknowledged_version: self.capture_acknowledged_version,
            sharing: copy_consents(&self.sharing),
        }
    }
}

impl PrivacyFile {
    /// Whether two records agree in every field.
    pub fn same(&self, other: &Self) -> (r: bool)
        ensures
            r == (self@ == other@),
    {
        self.version == other.version
            && self.capture_acknowledged_version == other.capture_acknowledged_version
            && same_consents(&self.sharing, &other.sharing)
    }
}

/// What the user has agreed to with respect to one destination.
#[derive(Debug)]
pub struct PrivacyStatus {
    pub capture_acknowledged: bool,
    pub sharing_consented: bool,
    pub auto_push: bool,
    pub remote_fingerprint: String,
}

/// The contents of [`PrivacyStatus`].
#[verifier::ext_equal]
pub struct StatusModel {
    pub capture_acknowledged: bool,
    pub sharing_consented: bool,
    pub auto_push: bool,
    pub remote_fingerprint: Seq<char>,
}

impl View for PrivacyStatus {
    type V = StatusModel;

    open spec fn view(&self) -> StatusModel {
        StatusModel {
            capture_acknowledged: self.capture_acknowledged,
            sharing_consented: self.sharing_consented,
            auto_push: self.auto_push,
            remote_fingerprint: self.remote_fingerprint@,
        }
    }
}

impl Clone for PrivacyStatus {
    fn clone(&self) -> (r: Self)
        ensures
            r@ == self@,
    {
        PrivacyStatus {
            capture_acknowledged: self.capture_acknowledged,
            sharing_consented: self.sharing_consented,
            auto_push: self.auto_push,
            remote_fingerprint: self.remote_fingerprint.clone(),
        }
    }
}

impl PrivacyStatus {
    /// Whether two records agree in every field.
    pub fn same(&self, other: &Self) -> (r: bool)
        ensures
            r == (self@ == other@),
    {
        self.capture_acknowledged == other.capture_acknowledged
            && self.sharing_consented == other.sharing_consented
            && self.auto_push == other.auto_push
            && self.remote_fingerprint == other.remote_fingerprint
    }
}

/// An immutable description of the destination selected for one operation.  Do not
/// re-read the git config after this is created: `pushurl` is deliberately allowed
/// to differ from the fetch URL.
#[derive(Debug)]
pub struct RemoteDestination {
    pub name: String,
    pub effective_url: String,
    pub fingerprint: String,
    pub ref_name: String,
}

/// The contents of [`RemoteDestination`].
#[verifier::ext_equal]
pub struct DestinationModel {
    pub name: Seq<char>,
    pub effective_url: Seq<char>,
    pub fingerprint: Seq<char>,
    pub ref_name: Seq<char>,
}

impl View for RemoteDestination {
    type V = DestinationModel;

    open spec fn view(&self) -> DestinationModel {
        DestinationModel {
            name: self.name@,
            effective_url: self.effective_url@,
            fingerprint: self.fingerprint@,
            ref_name: self.ref_name@,
        }
    }
}

impl Clone for RemoteDestination {
    fn clone(&self) -> (r: Self)
        ensures
            r@ == self@,
    {
        RemoteDestination {
            name: self.name.clone(),
            effective_url: self.effective_url.clone(),
            fingerprint: self.fingerprint.clone(),
            ref_name: self.ref_name.clone(),
        }
    }
}

impl RemoteDestination {
    /// Whether two records agree in every field.
    pub fn same(&self, other: &Self) -> (r: bool)
        ensures
            r == (self@ == other@),
    {
        self.name == other.name
            && self.effective_url == other.effective_url
            && self.fingerprint == other.fingerprint
            && self.ref_name == other.ref_name
    }
}

impl Default for PrivacyFile {
    fn default() -> (r: Self)
        ensures
            r@ == (PrivacyModel {
                version: PRIVACY_NOTICE_VERSION,
                capture_acknowledged_version: None,
                sharing: Seq::empty(),
            }),
    {
        let r = PrivacyFile {
            version: PRIVACY_NOTICE_VERSION,
            capture_acknowledged_version: None,
            sharing: Vec::new(),
        };
        assert(consent_models(r.sharing@) =~= Seq::empty());
        r
    }
}

/// The text that identifies a destination.
pub open spec fn destination_text(url: Seq<char>) -> Seq<char> {
    "remote-url:"@ + url + "\nref:refs/cvc/main"@
}

/// The destination of a remote with this push URL.
pub fn remote_destination(remote_name: &str, push_url: &str) -> (r: Result<
    RemoteDestination,
    PrivacyError,
>)
    ensures
        if text::trimmed(push_url@).len() == 0 {
            r matches Err(e) && e == PrivacyError::Policy(PolicyFault::EmptyPushUrl)
        } else {
            r matches Ok(d) && d@ == (DestinationModel {
                name: remote_name@,
                effective_url: text::trimmed(push_url@),
                fingerprint: digest::digest_text(encode_utf8(destination_text(text::trimmed(push_url@)))),
                ref_name: "refs/cvc/main"@,
            }) && digest::is_lower_hex(d.fingerprint@, 64)
        },
{
    let url = trim(push_url);
    let empty = url.as_str().is_empty();
    if empty {
        return Err(PrivacyError::Policy(PolicyFault::EmptyPushUrl));
    }
    let text = glue3("remote-url:", url.as_str(), "\nref:refs/cvc/main");
    let fingerprint = hex_digest(text.as_str().as_bytes());
    Ok(
        RemoteDestination {
            name: remote_name.to_owned(),
            effective_url: url,
            fingerprint,
            ref_name: "refs/cvc/main".to_owned(),
        },
    )
}

/// Checks the name of a destination before it becomes part of a file name.
pub fn check_fingerprint(fingerprint: &str) -> (r: Result<(), PrivacyError>)
    ensures
        r == (if digest::is_hex(fingerprint@, 64) {
            Ok::<(), PrivacyError>(())
        } else {
            Err::<(), PrivacyError>(PrivacyError::Policy(PolicyFault::InvalidFingerprint))
        }),
{
    if !any_hex(fingerprint, 64) {
        return Err(PrivacyError::Policy(PolicyFault::InvalidFingerprint));
    }
    Ok(())
}

/// The first agreement of the current notice with a destination, from position `k` on.
pub open spec fn find_consent(s: Seq<ConsentModel>, fp: Seq<char>, k: int) -> Option<int>
    decreases s.len() - k,
{
    if k < 0 || k >= s.len() {
        None
    } else if s[k].fingerprint == fp && s[k].notice_version == PRIVACY_NOTICE_VERSION {
        Some(k)
    } else {
        find_consent(s, fp, k + 1)
    }
}

/// What the state says of a destination.
pub open spec fn status_of(state: PrivacyModel, fp: Seq<char>) -> StatusModel {
    let k = find_consent(state.sharing, fp, 0);
    StatusModel {
        capture_acknowledged: state.capture_acknowledged_version == Some(PRIVACY_NOTICE_VERSION),
        sharing_consented: k is Some,
        auto_push: k matches Some(i) && state.sharing[i].auto_push,
        remote_fingerprint: fp,
    }
}

/// The state after the user has agreed to capture.
pub open spec fn with_capture(state: PrivacyModel) -> PrivacyModel {
    PrivacyModel { capture_acknowledged_version: Some(PRIVACY_NOTICE_VERSION), ..state }
}

/// The state after the user has agreed to share with a destination: earlier
/// agreements with it are forgotten, automatic pushes are off.
pub open spec fn with_sharing(state: PrivacyModel, fp: Seq<char>) -> PrivacyModel {
    PrivacyModel {
        sharing: state.sharing.filter(|c: ConsentModel| c.fingerprint != fp).push(
            ConsentModel {
                fingerprint: fp,
                notice_version: PRIVACY_NOTICE_VERSION,
                auto_push: false,
            },
        ),
        ..state
    }
}

/// The state after automatic pushes to a destination were switched.
pub open spec fn with_auto_push(state: PrivacyModel, fp: Seq<char>, enabled: bool) -> Result<
    PrivacyModel,
    PrivacyError,
> {
    match find_consent(state.sharing, fp, 0) {
        None => Err(PrivacyError::Policy(PolicyFault::ConsentRequired)),
        Some(k) => Ok(
            PrivacyModel {
                sharing: state.sharing.update(
                    k,
                    ConsentModel { auto_push: enabled, ..state.sharing[k] },
                ),
                ..state
            },
        ),
    }
}

impl PrivacyFile {
    /// Checks that the state was written for the current notice.
    pub fn check_version(&self) -> (r: Result<(), PrivacyError>)
        ensures
            r == (if self.version == PRIVACY_NOTICE_VERSION {
                Ok::<(), PrivacyError>(())
            } else {
                Err::<(), PrivacyError>(PrivacyError::Policy(PolicyFault::NoticeVersion))
            }),
    {
        if self.version != PRIVACY_NOTICE_VERSION {
            return Err(PrivacyError::Policy(PolicyFault::NoticeVersion));
        }
        Ok(())
    }

    fn position(&self, fp: &str) -> (r: Option<usize>)
        ensures
            match r {
                Some(k) => k < self.sharing@.len() && find_consent(self@.sharing, fp@, 0) == Some(
                    k as int,
                ),
                None => find_consent(self@.sharing, fp@, 0) is None,
            },
    {
        let ghost s = self@.sharing;
        let mut k: usize = 0;
        while k < self.sharing.len()
            invariant
                k <= self.sharing.len(),
                s == self@.sharing,
                s == consent_models(self.sharing@),
                find_consent(s, fp@, 0) == find_consent(s, fp@, k as int),
            decreases self.sharing.len() - k,
        {
            assert(s[k as int] == self.sharing@[k as int]@);
            if text_equal(self.sharing[k].fingerprint.as_str(), fp)
                && self.sharing[k].notice_version == PRIVACY_NOTICE_VERSION {
                return Some(k);
            }
            k += 1;
        }
        None
    }

    /// What the user has agreed to with respect to a destination.
    pub fn privacy_status_for_fingerprint(&self, fp: &str) -> (r: PrivacyStatus)
        ensures
            r@ == status_of(self@, fp@),
    {
        let k = self.position(fp);
        let auto_push = match k {
            Some(i) => {
                assert(self@.sharing[i as int] == self.sharing@[i as int]@);
                self.sharing[i].auto_push
            },
            None => false,
        };
        PrivacyStatus {
            capture_acknowledged: self.capture_acknowledged(),
            sharing_consented: k.is_some(),
            auto_push,
            remote_fingerprint: fp.to_owned(),
        }
    }

    /// Passive collection is opt-in. Explicit local actions may still persist private
    /// data, but background IDE observation must fail closed until this is true.
    pub fn capture_acknowledged(&self) -> (r: bool)
        ensures
            r == (self.capture_acknowledged_version == Some(PRIVACY_NOTICE_VERSION)),
    {
        match self.capture_acknowledged_version {
            Some(v) => v == PRIVACY_NOTICE_VERSION,
            None => false,
        }
    }

    /// Records that the user has agreed to capture.
    pub fn acknowledge_capture(&mut self)
        ensures
            final(self)@ == with_capture(old(self)@),
    {
        self.capture_acknowledged_version = Some(PRIVACY_NOTICE_VERSION);
    }

    /// Records that the user has agreed to share with a destination.
    pub fn acknowledge_sharing(&mut self, fingerprint: &str)
        ensures
            final(self)@ == with_sharing(old(self)@, fingerprint@),
    {
        let ghost s = self@.sharing;
        let ghost keep = |c: ConsentModel| c.fingerprint != fingerprint@;
        let mut out: Vec<SharingConsent> = Vec::new();
        let mut k: usize = 0;
        assert(consent_models(out@) =~= s.take(0).filter(keep)) by {
            reveal(Seq::filter);
        }
        while k < self.sharing.len()
            invariant
                k <= self.sharing.len(),
                s == self@.sharing,
                *self == *old(self),
                s == consent_models(self.sharing@),
                keep == (|c: ConsentModel| c.fingerprint != fingerprint@),
                consent_models(out@) == s.take(k as int).filter(keep),
            decreases self.sharing.len() - k,
        {
            proof {
                reveal(Seq::filter);
                assert(s[k as int] == self.sharing@[k as int]@);
                assert(s.take(k + 1).drop_last() =~= s.take(k as int));
                assert(s.take(k + 1).last() == s[k as int]);
            }
            if !text_equal(self.sharing[k].fingerprint.as_str(), fingerprint) {
                let ghost held = consent_models(out@);
                out.push(self.sharing[k].clone());
                assert(consent_models(out@) =~= held.push(s[k as int]));
            }
            k += 1;
        }
        assert(s.take(s.len() as int) =~= s);
        let ghost held = consent_models(out@);
        let consent = SharingConsent {
            fingerprint: fingerprint.to_owned(),
            notice_version: PRIVACY_NOTICE_VERSION,
            auto_push: false,
        };
        let ghost x = consent@;
        out.push(consent);
        assert(consent_models(out@) =~= held.push(x));
        self.sharing = out;
    }

    /// Switches automatic pushes to a destination, which needs an agreement.
    pub fn set_auto_push(&mut self, fingerprint: &str, enabled: bool) -> (r: Result<(), PrivacyError>)
        ensures
            match with_auto_push(old(self)@, fingerprint@, enabled) {
                Ok(m) => r is Ok && final(self)@ == m,
                Err(e) => r matches Err(f) && f == e && *final(self) == *old(self),
            },
    {
        let k = match self.position(fingerprint) {
            Some(k) => k,
            None => {
                return Err(PrivacyError::Policy(PolicyFault::ConsentRequired));
            },
        };
        let ghost s = self@.sharing;
        let changed = SharingConsent {
            fingerprint: self.sharing[k].fingerprint.clone(),
            notice_version: self.sharing[k].notice_version,
            auto_push: enabled,
        };
        let ghost x = changed@;
        assert(s[k as int] == self.sharing@[k as int]@);
        self.sharing.set(k, changed);
        assert(consent_models(self.sharing@) =~= s.update(k as int, x));
        Ok(())
    }
}

proof fn lemma_filtered_none(s: Seq<ConsentModel>, fp: Seq<char>, k: int)
    requires
        0 <= k,
    ensures
        find_consent(
            s.filter(|c: ConsentModel| c.fingerprint != fp),
            fp,
            k,
        ) is None,
    decreases s.filter(|c: ConsentModel| c.fingerprint != fp).len() - k,
{
    let f = s.filter(|c: ConsentModel| c.fingerprint != fp);
    if k < f.len() {
        lemma_filter_other(s, fp, k);
        lemma_filtered_none(s, fp, k + 1);
    }
}

proof fn lemma_filter_other(s: Seq<ConsentModel>, fp: Seq<char>, k: int)
    requires
        0 <= k < s.filter(|c: ConsentModel| c.fingerprint != fp).len(),
    ensures
        s.filter(|c: ConsentModel| c.fingerprint != fp)[k].fingerprint != fp,
    decreases s.len(),
{
    reveal(Seq::filter);
    let keep = |c: ConsentModel| c.fingerprint != fp;
    if s.len() > 0 {
        let p = s.drop_last();
        if k < p.filter(keep).len() {
            lemma_filter_other(p, fp, k);
        }
    }
}

proof fn lemma_find_pushed(s: Seq<ConsentModel>, x: ConsentModel, fp: Seq<char>, k: int)
    requires
        0 <= k <= s.len(),
    ensures
        match find_consent(s, fp, k) {
            Some(i) => find_consent(s.push(x), fp, k) == Some(i) && 0 <= i < s.len(),
            None => find_consent(s.push(x), fp, k) == (if x.fingerprint == fp && x.notice_version
                == PRIVACY_NOTICE_VERSION {
                Some(s.len() as int)
            } else {
                None
            }),
        },
    decreases s.len() - k,
{
    if k < s.len() {
        assert(s.push(x)[k] == s[k]);
        lemma_find_pushed(s, x, fp, k + 1);
    } else {
        assert(s.push(x)[k] == x);
        reveal_with_fuel(find_consent, 2);
    }
}

/// Agreeing to share makes the destination a shared one, with automatic pushes
/// off until they are switched on.
pub proof fn law_sharing_is_recorded(state: PrivacyModel, fp: Seq<char>)
    ensures
        status_of(with_sharing(state, fp), fp).sharing_consented,
        !status_of(with_sharing(state, fp), fp).auto_push,
        status_of(with_sharing(state, fp), fp).capture_acknowledged == status_of(
            state,
            fp,
        ).capture_acknowledged,
{
    let f = state.sharing.filter(|c: ConsentModel| c.fingerprint != fp);
    let x = ConsentModel {
        fingerprint: fp,
        notice_version: PRIVACY_NOTICE_VERSION,
        auto_push: false,
    };
    lemma_filtered_none(state.sharing, fp, 0);
    lemma_find_pushed(f, x, fp, 0);
    assert(f.push(x)[f.len() as int] == x);
}

/// Automatic pushes can be switched exactly for a shared destination, and the
/// status then says so.
pub proof fn law_auto_push_needs_consent(state: PrivacyModel, fp: Seq<char>, enabled: bool)
    ensures
        with_auto_push(state, fp, enabled) is Ok <==> status_of(state, fp).sharing_consented,
        with_auto_push(state, fp, enabled) matches Ok(next) ==> status_of(next, fp).auto_push
            == enabled && status_of(next, fp).sharing_consented,
{
    if find_consent(state.sharing, fp, 0) is Some {
        let k = find_consent(state.sharing, fp, 0)->0;
        lemma_find_bound(state.sharing, fp, 0);
        let x = ConsentModel { auto_push: enabled, ..state.sharing[k] };
        lemma_find_updated(state.sharing, k, x, fp, 0);
    }
}

proof fn lemma_find_bound(s: Seq<ConsentModel>, fp: Seq<char>, k: int)
    requires
        0 <= k,
    ensures
        find_consent(s, fp, k) matches Some(i) ==> k <= i < s.len() && s[i].fingerprint == fp
            && s[i].notice_version == PRIVACY_NOTICE_VERSION,
    decreases s.len() - k,
{
    if k < s.len() && !(s[k].fingerprint == fp && s[k].notice_version == PRIVACY_NOTICE_VERSION) {
        lemma_find_bound(s, fp, k + 1);
    }
}

proof fn lemma_find_updated(s: Seq<ConsentModel>, at: int, x: ConsentModel, fp: Seq<char>, k: int)
    requires
        0 <= k <= at < s.len(),
        find_consent(s, fp, k) == Some(at),
        x.fingerprint == s[at].fingerprint,
        x.notice_version == s[at].notice_version,
    ensures
        find_consent(s.update(at, x), fp, k) == Some(at),
    decreases at - k,
{
    lemma_find_bound(s, fp, k);
    if k < at {
        assert(s.update(at, x)[k] == s[k]);
        lemma_find_updated(s, at, x, fp, k + 1);
    } else {
        assert(s.update(at, x)[at] == x);
    }
}

} // verus!
