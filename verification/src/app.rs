use vstd::prelude::*;

pub mod encryption;
pub mod file;

use crate::Args;
use encryption::cipher_for;
use encryption::lemma_decrypt_wrong_passphrase;
use encryption::lemma_encrypt_decrypt_round_trip;
use encryption::spec_decrypt;
use encryption::Encryption;
use encryption::EncryptionError;
use file::cache_kept;
use file::cache_refreshed;
use file::has_id;
use file::id_index;
use file::text_views;
use file::Directory;

verus! {

/// Journal-level failures: the bound passphrase does not match the store's
/// ciphertext, or no passphrase is bound at all.
#[derive(Clone, Copy, Debug, PartialEq, Eq, Structural)]
pub enum AppError {
    IncorrectPassword,
    NoPassphrase,
}

/// Bind a codec exactly when a passphrase was supplied.
pub fn encryption_from_option_passphrase(passphrase: Option<String>) -> (r: Option<Encryption>)
    ensures
        r is Some <==> passphrase is Some,
        r is Some ==> r->0.passphrase() == passphrase->0@,
{
    match passphrase {
        Option::Some(passphrase) => Option::Some(Encryption::new(passphrase)),
        Option::None => Option::None,
    }
}

/// The outcome of checking a passphrase against a store holding `m`, whose
/// current listing is `cache`: trial-decrypt the newest listed entry. An
/// empty listing cannot disprove the passphrase (this is how initial setup
/// works), nor can a listed entry that is no longer present (the deliberate
/// fail-open on a vanished file), and a journal without a codec is not
/// checked at all.
pub open spec fn spec_verify(
    m: Seq<(Seq<char>, Seq<u8>)>,
    cache: Seq<Seq<char>>,
    pass: Option<Seq<char>>,
) -> bool {
    if cache.len() == 0 {
        true
    } else if !has_id(m, cache[0]) {
        true
    } else {
        match pass {
            Option::None => true,
            Option::Some(p) => spec_decrypt(p, m[id_index(m, cache[0])].1) is Ok,
        }
    }
}

/// What reading the entry at listing position `n` yields: empty text when
/// locked, out of range, or the listed entry vanished; the decrypted text
/// otherwise, with a failure to decrypt reported as a wrong passphrase.
pub open spec fn spec_nth_content(
    m: Seq<(Seq<char>, Seq<u8>)>,
    cache: Seq<Seq<char>>,
    pass: Option<Seq<char>>,
    n: int,
) -> Result<Seq<char>, AppError> {
    match pass {
        Option::None => Result::Ok(Seq::empty()),
        Option::Some(p) => if n >= cache.len() {
            Result::Ok(Seq::empty())
        } else if !has_id(m, cache[n]) {
            Result::Ok(Seq::empty())
        } else {
            match spec_decrypt(p, m[id_index(m, cache[n])].1) {
                Result::Ok(t) => Result::Ok(t),
                Result::Err(_) => Result::Err(AppError::IncorrectPassword),
            }
        },
    }
}

/// `post` is `pre` with ciphertext `c` written under `id`: replacing the
/// entry that carried `id`, or appended as the newest entry if none did.
pub open spec fn entry_written(
    pre: Seq<(Seq<char>, Seq<u8>)>,
    post: Seq<(Seq<char>, Seq<u8>)>,
    id: Seq<char>,
    c: Seq<u8>,
) -> bool {
    if has_id(pre, id) {
        post == pre.update(id_index(pre, id), (id, c))
    } else {
        post == pre.push((id, c))
    }
}

/// The store `post` is `pre` after the pending texts were written in order,
/// each freshly encrypted under `pass` and stored under some identifier: one
/// [`entry_written`] step with a [`cipher_for`] witness per pending text.
pub open spec fn drained(
    pre: Seq<(Seq<char>, Seq<u8>)>,
    post: Seq<(Seq<char>, Seq<u8>)>,
    pass: Seq<char>,
    pending: Seq<Seq<char>>,
) -> bool
    decreases pending.len(),
{
    if pending.len() == 0 {
        post == pre
    } else {
        exists|mid: Seq<(Seq<char>, Seq<u8>)>, id: Seq<char>, c: Seq<u8>|
            #![trigger entry_written(mid, post, id, c)]
            drained(pre, mid, pass, pending.drop_last()) && cipher_for(pass, pending.last(), c)
                && entry_written(mid, post, id, c)
    }
}

/// What a passphrase rotation owes each entry: either it now carries a fresh
/// encryption, under the new passphrase, of the text it held under the old
/// one, or it was left exactly as it was and its identifier stands among the
/// reported failures.
pub open spec fn rotated_or_kept(
    pre: (Seq<char>, Seq<u8>),
    post: (Seq<char>, Seq<u8>),
    oldp: Seq<char>,
    newp: Seq<char>,
    failed: Seq<Seq<char>>,
) -> bool {
    &&& post.0 == pre.0
    &&& {
        ||| (spec_decrypt(oldp, pre.1) is Ok && cipher_for(
            newp,
            spec_decrypt(oldp, pre.1)->Ok_0,
            post.1,
        ))
        ||| (post == pre && failed.contains(pre.0))
    }
}

/// What a full decrypt pass over a store holding `m` yields under passphrase
/// `p`: the texts of the entries that decrypt and the identifiers of those
/// that do not, each in enumeration order.
pub open spec fn spec_read_all(m: Seq<(Seq<char>, Seq<u8>)>, p: Seq<char>) -> (
    Seq<Seq<char>>,
    Seq<Seq<char>>,
)
    decreases m.len(),
{
    if m.len() == 0 {
        (Seq::<Seq<char>>::empty(), Seq::<Seq<char>>::empty())
    } else {
        let init = spec_read_all(m.drop_last(), p);
        match spec_decrypt(p, m.last().1) {
            Result::Ok(t) => (init.0.push(t), init.1),
            Result::Err(_) => (init.0, init.1.push(m.last().0)),
        }
    }
}

/// The journal service: one store, an optional passphrase-bound codec
/// ("locked" while absent), and entries supplied at construction to add
/// before the first read.
pub struct App {
    encryption: Option<Encryption>,
    directory: Directory,
    journals_to_add: Vec<String>,
}

impl App {
    /// The bound passphrase, `None` while locked.
    pub closed spec fn passphrase(self) -> Option<Seq<char>> {
        match self.encryption {
            Option::Some(e) => Option::Some(e.passphrase()),
            Option::None => Option::None,
        }
    }

    /// The store the service owns.
    pub closed spec fn store(self) -> Directory {
        self.directory
    }

    /// The texts still waiting to be added.
    pub closed spec fn pending(self) -> Seq<Seq<char>> {
        text_views(self.journals_to_add@)
    }

    pub open spec fn wf(self) -> bool {
        self.store().wf()
    }

    /// Assemble the service: bind the codec if a passphrase was supplied,
    /// take the store, and at once drain the pending entries, which happens
    /// only when the passphrase currently verifies (see `add_journals`).
    pub fn new(args: Args, directory: Directory) -> (r: Result<App, EncryptionError>)
        requires
            directory.wf(),
        ensures
            r is Ok ==> r->Ok_0.wf(),
            r is Ok ==> (r->Ok_0.passphrase() is Some <==> args.passphrase is Some),
            r is Ok && args.passphrase is Some ==> r->Ok_0.passphrase()->0 == args.passphrase->0@,
            r is Ok ==> r->Ok_0.store().dir_path() == directory.dir_path(),
            r is Ok ==> r->Ok_0.pending() == text_views(args.add@),
            r is Ok && args.passphrase is None ==> r->Ok_0.store().model() == directory.model(),
            r is Ok && args.add@.len() == 0 ==> r->Ok_0.store().model() == directory.model(),
            r is Ok && args.passphrase is Some && spec_verify(
                directory.model(),
                r->Ok_0.store().cache(),
                Option::Some(args.passphrase->0@),
            ) ==> drained(
                directory.model(),
                r->Ok_0.store().model(),
                args.passphrase->0@,
                text_views(args.add@),
            ),
            r is Ok && args.passphrase is Some && !spec_verify(
                directory.model(),
                r->Ok_0.store().cache(),
                Option::Some(args.passphrase->0@),
            ) ==> r->Ok_0.store().model() == directory.model(),
            r is Err ==> r->Err_0 == EncryptionError::EncryptionFailure,
    {
        let mut app = App {
            journals_to_add: args.add,
            encryption: encryption_from_option_passphrase(args.passphrase),
            directory,
        };
        match app.add_journals() {
            Result::Ok(_) => Result::Ok(app),
            Result::Err(e) => Result::Err(e),
        }
    }

    /// How many entries the store holds.
    pub fn len(&self) -> (n: usize)
        ensures
            n == self.store().model().len(),
    {
        self.directory.len()
    }

    /// Whether the store holds no entry.
    pub fn empty(&self) -> (r: bool)
        ensures
            r == (self.store().model().len() == 0),
    {
        self.len() == 0
    }

    /// Whether a passphrase is bound (even an unverified one).
    pub fn has_passphrase(&self) -> (r: bool)
        ensures
            r == (self.passphrase() is Some),
    {
        self.encryption.is_some()
    }

    /// Whether the journal is locked.
    pub fn no_passphrase(&self) -> (r: bool)
        ensures
            r == (self.passphrase() is None),
    {
        self.encryption.is_none()
    }

    /// Bind a codec to the given passphrase, unconditionally: the journal is
    /// unlocked even if the passphrase is wrong for the existing ciphertext;
    /// only `test_passphrase` establishes correctness.
    pub fn set_passphrase(&mut self, passphrase: String)
        ensures
            final(self).passphrase() == Option::Some(passphrase@),
            final(self).store() == old(self).store(),
            final(self).pending() == old(self).pending(),
    {
        self.encryption = Option::Some(Encryption::new(passphrase))
    }

    /// Check the bound passphrase by trial-decrypting the newest listed
    /// entry. An empty store accepts any passphrase; an entry that vanished
    /// from under its listing cannot disprove one (deliberate fail-open); a
    /// locked journal passes unchecked.
    pub fn test_passphrase(&mut self) -> (r: Result<(), AppError>)
        requires
            old(self).wf(),
        ensures
            final(self).wf(),
            final(self).passphrase() == old(self).passphrase(),
            final(self).pending() == old(self).pending(),
            final(self).store().model() == old(self).store().model(),
            final(self).store().dir_path() == old(self).store().dir_path(),
            old(self).store().model().len() != old(self).store().last_count() ==> cache_refreshed(
                old(self).store(),
                final(self).store(),
            ),
            old(self).store().model().len() == old(self).store().last_count() ==> cache_kept(
                old(self).store(),
                final(self).store(),
            ),
            r is Ok <==> spec_verify(
                old(self).store().model(),
                final(self).store().cache(),
                old(self).passphrase(),
            ),
            r is Err ==> r->Err_0 == AppError::IncorrectPassword,
            old(self).store().model().len() == 0 ==> r is Ok,
    {
        let first = self.directory.nth_path(0);
        proof {
            if old(self).store().model().len() == 0 && old(self).store().model().len() != old(self).store().last_count() {
                self.store().cache().to_multiset_ensures();
                old(self).store().ids().to_multiset_ensures();
                assert(self.store().cache().len() == 0);
            }
        }
        match first {
            Option::None => Result::Ok(()),
            Option::Some(id) => {
                match &self.encryption {
                    Option::None => Result::Ok(()),
                    Option::Some(enc) => {
                        match self.directory.get(&id) {
                            Option::None => Result::Ok(()),
                            Option::Some(bytes) => {
                                match enc.decrypt(bytes) {
                                    Result::Ok(_) => Result::Ok(()),
                                    Result::Err(_) => Result::Err(AppError::IncorrectPassword),
                                }
                            },
                        }
                    },
                }
            },
        }
    }

    /// Encrypt a new entry and store it under the given identifier,
    /// overwriting any entry already carrying it, as a same-second collision
    /// does on disk. A locked journal takes no entry.
    pub fn add_journal_as(&mut self, id: String, journal: &str) -> (r: Result<(), EncryptionError>)
        requires
            old(self).wf(),
        ensures
            final(self).wf(),
            final(self).passphrase() == old(self).passphrase(),
            final(self).pending() == old(self).pending(),
            final(self).store().dir_path() == old(self).store().dir_path(),
            cache_kept(old(self).store(), final(self).store()),
            old(self).passphrase() is None ==> r is Ok && final(self).store().model() == old(self).store().model(),
            r is Err ==> r->Err_0 == EncryptionError::EncryptionFailure && final(self).store().model() == old(self).store().model(),
            r is Ok && old(self).passphrase() is Some ==> exists|c: Seq<u8>|
                #![auto]
                cipher_for(old(self).passphrase()->0, journal@, c) && entry_written(
                    old(self).store().model(),
                    final(self).store().model(),
                    id@,
                    c,
                ),
    {
        let ciphertext = match &self.encryption {
            Option::None => {
                return Result::Ok(());
            },
            Option::Some(enc) => {
                match enc.encrypt(journal) {
                    Result::Ok(c) => c,
                    Result::Err(_) => {
                        return Result::Err(EncryptionError::EncryptionFailure);
                    },
                }
            },
        };
        let ghost c = ciphertext@;
        self.directory.insert(id, ciphertext);
        proof {
            assert(cipher_for(old(self).passphrase()->0, journal@, c));
            assert(entry_written(old(self).store().model(), self.store().model(), id@, c));
        }
        Result::Ok(())
    }

    /// Encrypt a new entry under a freshly allocated identifier, the current
    /// local timestamp. Two entries created within one clock second collide
    /// on the identifier and the later write wins, as on disk.
    pub fn add_journal(&mut self, journal: &str) -> (r: Result<(), EncryptionError>)
        requires
            old(self).wf(),
        ensures
            final(self).wf(),
            final(self).passphrase() == old(self).passphrase(),
            final(self).pending() == old(self).pending(),
            final(self).store().dir_path() == old(self).store().dir_path(),
            cache_kept(old(self).store(), final(self).store()),
            old(self).passphrase() is None ==> r is Ok && final(self).store().model() == old(self).store().model(),
            r is Err ==> r->Err_0 == EncryptionError::EncryptionFailure && final(self).store().model() == old(self).store().model(),
            r is Ok && old(self).passphrase() is Some ==> exists|id: Seq<char>, c: Seq<u8>|
                #![auto]
                cipher_for(old(self).passphrase()->0, journal@, c) && entry_written(
                    old(self).store().model(),
                    final(self).store().model(),
                    id,
                    c,
                ),
    {
        let id = self.directory.new_path();
        self.add_journal_as(id, journal)
    }

    /// Drain the pending entries into the store, in order, but only when the
    /// bound passphrase currently verifies: with a wrong initial passphrase
    /// the pending entries are silently dropped, mirroring the
    /// construction-time behaviour this service has always had. The listing
    /// cache ends as the verification left it (the drain itself never
    /// touches it), so which way verification went is stated over the final
    /// listing.
    #[verifier::loop_isolation(false)]
    pub fn add_journals(&mut self) -> (r: Result<(), EncryptionError>)
        requires
            old(self).wf(),
        ensures
            final(self).wf(),
            final(self).passphrase() == old(self).passphrase(),
            final(self).pending() == old(self).pending(),
            final(self).store().dir_path() == old(self).store().dir_path(),
            old(self).store().model().len() != old(self).store().last_count() ==> cache_refreshed(
                old(self).store(),
                final(self).store(),
            ),
            old(self).store().model().len() == old(self).store().last_count() ==> cache_kept(
                old(self).store(),
                final(self).store(),
            ),
            old(self).passphrase() is None ==> final(self).store().model() == old(self).store().model(),
            old(self).pending().len() == 0 ==> final(self).store().model() == old(self).store().model(),
            !spec_verify(
                old(self).store().model(),
                final(self).store().cache(),
                old(self).passphrase(),
            ) ==> r is Ok && final(self).store().model() == old(self).store().model(),
            r is Ok && old(self).passphrase() is Some && spec_verify(
                old(self).store().model(),
                final(self).store().cache(),
                old(self).passphrase(),
            ) ==> drained(
                old(self).store().model(),
                final(self).store().model(),
                old(self).passphrase()->0,
                old(self).pending(),
            ),
            r is Err ==> r->Err_0 == EncryptionError::EncryptionFailure,
    {
        match self.test_passphrase() {
            Result::Err(_) => Result::Ok(()),
            Result::Ok(_) => {
                let ghost m0 = self.store().model();
                let ghost s1 = self.store();
                let ghost pass = old(self).passphrase();
                let n = self.journals_to_add.len();
                let mut i: usize = 0;
                proof {
                    assert(old(self).pending().take(0) =~= Seq::<Seq<char>>::empty());
                }
                while i < n
                    invariant
                        self.wf(),
                        n == self.journals_to_add@.len(),
                        i <= n,
                        m0 == old(self).store().model(),
                        pass == old(self).passphrase(),
                        self.passphrase() == old(self).passphrase(),
                        self.pending() == old(self).pending(),
                        self.store().dir_path() == old(self).store().dir_path(),
                        cache_kept(s1, self.store()),
                        old(self).passphrase() is None ==> self.store().model() == old(self).store().model(),
                        old(self).pending().len() == 0 ==> self.store().model() == old(self).store().model(),
                        pass is Some ==> drained(
                            m0,
                            self.store().model(),
                            pass->0,
                            old(self).pending().take(i as int),
                        ),
                    decreases n - i,
                {
                    let ghost mid = self.store().model();
                    let journal = self.journals_to_add[i].clone();
                    match self.add_journal(journal.as_str()) {
                        Result::Ok(_) => {},
                        Result::Err(e) => {
                            return Result::Err(e);
                        },
                    }
                    proof {
                        if pass is Some {
                            let step = old(self).pending().take(i as int + 1);
                            assert(step.drop_last() =~= old(self).pending().take(i as int));
                            assert(step.last() == old(self).pending()[i as int]);
                            assert(journal@ == old(self).pending()[i as int]);
                            let (id, c) = choose|id: Seq<char>, c: Seq<u8>|
                                #![auto]
                                cipher_for(pass->0, journal@, c) && entry_written(
                                    mid,
                                    self.store().model(),
                                    id,
                                    c,
                                );
                            assert(cipher_for(pass->0, step.last(), c));
                            assert(entry_written(mid, self.store().model(), id, c));
                            assert(drained(m0, mid, pass->0, step.drop_last()));
                            assert(drained(m0, self.store().model(), pass->0, step));
                        }
                    }
                    i = i + 1;
                }
                proof {
                    assert(old(self).pending().take(n as int) =~= old(self).pending());
                }
                Result::Ok(())
            },
        }
    }

    /// Decrypt and return the entry at a listing position: empty text when
    /// locked, out of range, or the listed entry vanished; a typed error when
    /// the entry does not decrypt under the bound passphrase.
    pub fn nth_content(&mut self, n: usize) -> (r: Result<String, AppError>)
        requires
            old(self).wf(),
        ensures
            final(self).wf(),
            final(self).passphrase() == old(self).passphrase(),
            final(self).pending() == old(self).pending(),
            final(self).store().model() == old(self).store().model(),
            final(self).store().dir_path() == old(self).store().dir_path(),
            old(self).passphrase() is None ==> cache_kept(old(self).store(), final(self).store()),
            old(self).passphrase() is Some && old(self).store().model().len() != old(self).store().last_count() ==> cache_refreshed(old(self).store(), final(self).store()),
            old(self).passphrase() is Some && old(self).store().model().len() == old(self).store().last_count() ==> cache_kept(old(self).store(), final(self).store()),
            r is Ok <==> spec_nth_content(
                old(self).store().model(),
                final(self).store().cache(),
                old(self).passphrase(),
                n as int,
            ) is Ok,
            r is Ok ==> r->Ok_0@ == spec_nth_content(
                old(self).store().model(),
                final(self).store().cache(),
                old(self).passphrase(),
                n as int,
            )->Ok_0,
            r is Err ==> r->Err_0 == spec_nth_content(
                old(self).store().model(),
                final(self).store().cache(),
                old(self).passphrase(),
                n as int,
            )->Err_0,
    {
        match &self.encryption {
            Option::None => Result::Ok(String::new()),
            Option::Some(enc) => {
                match self.directory.nth_path(n) {
                    Option::None => Result::Ok(String::new()),
                    Option::Some(id) => {
                        match self.directory.get(&id) {
                            Option::None => Result::Ok(String::new()),
                            Option::Some(bytes) => {
                                match enc.decrypt(bytes) {
                                    Result::Ok(text) => Result::Ok(text),
                                    Result::Err(_) => Result::Err(AppError::IncorrectPassword),
                                }
                            },
                        }
                    },
                }
            },
        }
    }

    /// Re-encrypt and overwrite the entry at a listing position; nothing
    /// happens when locked or out of range. (Under a stale listing the write
    /// can land as a fresh entry, exactly as writing the listed file would.)
    pub fn edit_nth(&mut self, n: usize, journal: String) -> (r: Result<(), EncryptionError>)
        requires
            old(self).wf(),
        ensures
            final(self).wf(),
            final(self).passphrase() == old(self).passphrase(),
            final(self).pending() == old(self).pending(),
            final(self).store().dir_path() == old(self).store().dir_path(),
            old(self).passphrase() is None ==> cache_kept(old(self).store(), final(self).store())
                && final(self).store().model() == old(self).store().model() && r is Ok,
            old(self).passphrase() is Some && old(self).store().model().len() != old(self).store().last_count() ==> cache_refreshed(old(self).store(), final(self).store()),
            old(self).passphrase() is Some && old(self).store().model().len() == old(self).store().last_count() ==> cache_kept(old(self).store(), final(self).store()),
            r is Err ==> r->Err_0 == EncryptionError::EncryptionFailure && final(self).store().model() == old(self).store().model(),
            r is Ok && old(self).passphrase() is Some && n >= final(self).store().cache().len()
                ==> final(self).store().model() == old(self).store().model(),
            r is Ok && old(self).passphrase() is Some && n < final(self).store().cache().len()
                ==> exists|c: Seq<u8>|
                #![auto]
                cipher_for(old(self).passphrase()->0, journal@, c) && entry_written(
                    old(self).store().model(),
                    final(self).store().model(),
                    final(self).store().cache()[n as int],
                    c,
                ),
    {
        match &self.encryption {
            Option::None => Result::Ok(()),
            Option::Some(enc) => {
                match self.directory.nth_path(n) {
                    Option::None => Result::Ok(()),
                    Option::Some(id) => {
                        match enc.encrypt(journal.as_str()) {
                            Result::Err(_) => Result::Err(EncryptionError::EncryptionFailure),
                            Result::Ok(ciphertext) => {
                                let ghost c = ciphertext@;
                                self.directory.insert(id, ciphertext);
                                proof {
                                    assert(cipher_for(old(self).passphrase()->0, journal@, c));
                                    assert(entry_written(
                                        old(self).store().model(),
                                        self.store().model(),
                                        id@,
                                        c,
                                    ));
                                }
                                Result::Ok(())
                            },
                        }
                    },
                }
            },
        }
    }

    /// Remove the entry at a listing position; reports whether one went.
    /// Nothing happens while locked or out of range.
    pub fn delete_nth(&mut self, n: usize) -> (r: bool)
        requires
            old(self).wf(),
        ensures
            final(self).wf(),
            final(self).passphrase() == old(self).passphrase(),
            final(self).pending() == old(self).pending(),
            final(self).store().dir_path() == old(self).store().dir_path(),
            old(self).passphrase() is None ==> !r && cache_kept(old(self).store(), final(self).store())
                && final(self).store().model() == old(self).store().model(),
            old(self).passphrase() is Some && old(self).store().model().len() != old(self).store().last_count() ==> cache_refreshed(
                old(self).store(),
                final(self).store(),
            ),
            old(self).passphrase() is Some && old(self).store().model().len() == old(self).store().last_count() ==> cache_kept(
                old(self).store(),
                final(self).store(),
            ),
            old(self).passphrase() is Some && n >= final(self).store().cache().len() ==> !r
                && final(self).store().model() == old(self).store().model(),
            old(self).passphrase() is Some && n < final(self).store().cache().len() ==> r == has_id(
                old(self).store().model(),
                final(self).store().cache()[n as int],
            ),
            old(self).passphrase() is Some && n < final(self).store().cache().len() && r ==> final(self).store().model() == old(self).store().model().remove(
                id_index(old(self).store().model(), final(self).store().cache()[n as int]),
            ),
            old(self).passphrase() is Some && n < final(self).store().cache().len() && !r ==> final(self).store().model() == old(self).store().model(),
    {
        if self.encryption.is_none() {
            return false;
        }
        match self.directory.nth_path(n) {
            Option::None => false,
            Option::Some(id) => self.directory.remove(&id),
        }
    }

    /// Re-encrypt every entry under a new passphrase, best effort and in
    /// place: an entry that fails to decrypt under the current passphrase
    /// (or, exceptionally, to re-encrypt) is left as it was, and its
    /// identifier is returned rather than the failure being swallowed. The
    /// codec stays bound to the old passphrase; rebinding is the caller's
    /// own step. A locked journal rotates nothing. Not atomic: a crash
    /// midway leaves a mix of old- and new-passphrase ciphertexts.
    #[verifier::loop_isolation(false)]
    pub fn change_password(&mut self, new_password: String) -> (r: Vec<String>)
        requires
            old(self).wf(),
        ensures
            final(self).wf(),
            final(self).passphrase() == old(self).passphrase(),
            final(self).pending() == old(self).pending(),
            final(self).store().dir_path() == old(self).store().dir_path(),
            cache_kept(old(self).store(), final(self).store()),
            final(self).store().model().len() == old(self).store().model().len(),
            old(self).passphrase() is None ==> final(self).store().model() == old(
                self,
            ).store().model() && r@.len() == 0,
            old(self).passphrase() is Some ==> forall|i: int|
                #![auto]
                0 <= i < old(self).store().model().len() ==> rotated_or_kept(
                    old(self).store().model()[i],
                    final(self).store().model()[i],
                    old(self).passphrase()->0,
                    new_password@,
                    text_views(r@),
                ),
    {
        let mut failed: Vec<String> = Vec::new();
        match &self.encryption {
            Option::None => failed,
            Option::Some(enc) => {
                let new_encryption = Encryption::new(new_password);
                let ghost m = old(self).store().model();
                let ghost oldp = enc.passphrase();
                let ghost newp = new_encryption.passphrase();
                let n = self.directory.len();
                let mut i: usize = 0;
                while i < n
                    invariant
                        self.wf(),
                        n == m.len(),
                        i <= n,
                        self.encryption == old(self).encryption,
                        self.journals_to_add == old(self).journals_to_add,
                        self.store().dir_path() == old(self).store().dir_path(),
                        cache_kept(old(self).store(), self.store()),
                        self.store().model().len() == m.len(),
                        forall|j: int|
                            #![auto]
                            i <= j < m.len() ==> self.store().model()[j] == m[j],
                        forall|j: int|
                            #![auto]
                            0 <= j < i ==> rotated_or_kept(
                                m[j],
                                self.store().model()[j],
                                oldp,
                                newp,
                                text_views(failed@),
                            ),
                    decreases n - i,
                {
                    let ghost pre_failed = failed@;
                    match self.directory.file_at(i) {
                        Option::None => {
                            proof {
                                assert(false);
                            }
                        },
                        Option::Some((id, bytes)) => {
                            match enc.decrypt(bytes) {
                                Result::Err(_) => failed.push(id),
                                Result::Ok(text) => {
                                    match new_encryption.encrypt(text.as_str()) {
                                        Result::Err(_) => failed.push(id),
                                        Result::Ok(ciphertext) => {
                                            let _ = self.directory.set_bytes_at(i, ciphertext);
                                        },
                                    }
                                },
                            }
                        },
                    }
                    proof {
                        assert forall|j: int| #![auto] 0 <= j < i + 1 implies rotated_or_kept(
                            m[j],
                            self.store().model()[j],
                            oldp,
                            newp,
                            text_views(failed@),
                        ) by {
                            if j < i {
                                if failed@.len() > pre_failed.len() {
                                    assert(text_views(failed@) =~= text_views(pre_failed).push(
                                        failed@.last()@,
                                    ));
                                    assert forall|x: Seq<char>|
                                        text_views(pre_failed).contains(x) implies text_views(
                                        failed@,
                                    ).contains(x) by {
                                        let w = choose|w: int|
                                            0 <= w < text_views(pre_failed).len() && text_views(
                                                pre_failed,
                                            )[w] == x;
                                        assert(text_views(failed@)[w] == x);
                                    }
                                }
                            } else {
                                if failed@.len() > pre_failed.len() {
                                    assert(text_views(failed@)[failed@.len() - 1] == m[j].0);
                                }
                            }
                        }
                    }
                    i = i + 1;
                }
                failed
            },
        }
    }

    /// Decrypt every entry in enumeration order: the texts of the entries
    /// that decrypt, and the identifiers of those that do not, surfaced
    /// rather than swallowed so one corrupt entry neither blocks the pass
    /// nor hides. Both parts are empty while locked.
    #[verifier::loop_isolation(false)]
    pub fn read(&self) -> (r: (Vec<String>, Vec<String>))
        requires
            self.wf(),
        ensures
            self.passphrase() is None ==> r.0@.len() == 0 && r.1@.len() == 0,
            self.passphrase() is Some ==> text_views(r.0@) == spec_read_all(
                self.store().model(),
                self.passphrase()->0,
            ).0 && text_views(r.1@) == spec_read_all(
                self.store().model(),
                self.passphrase()->0,
            ).1,
    {
        let mut texts: Vec<String> = Vec::new();
        let mut failed: Vec<String> = Vec::new();
        match &self.encryption {
            Option::None => {},
            Option::Some(enc) => {
                let ghost m = self.store().model();
                let ghost p = enc.passphrase();
                let n = self.directory.len();
                let mut i: usize = 0;
                proof {
                    assert(m.take(0) =~= Seq::<(Seq<char>, Seq<u8>)>::empty());
                    assert(text_views(texts@) =~= spec_read_all(m.take(0), p).0);
                    assert(text_views(failed@) =~= spec_read_all(m.take(0), p).1);
                }
                while i < n
                    invariant
                        n == m.len(),
                        i <= n,
                        text_views(texts@) == spec_read_all(m.take(i as int), p).0,
                        text_views(failed@) == spec_read_all(m.take(i as int), p).1,
                    decreases n - i,
                {
                    match self.directory.file_at(i) {
                        Option::None => {
                            proof {
                                assert(false);
                            }
                        },
                        Option::Some((id, bytes)) => {
                            match enc.decrypt(bytes) {
                                Result::Ok(text) => texts.push(text),
                                Result::Err(_) => failed.push(id),
                            }
                        },
                    }
                    proof {
                        let step = m.take(i as int + 1);
                        assert(step.drop_last() =~= m.take(i as int));
                        assert(step.last() == m[i as int]);
                        assert(text_views(texts@) =~= spec_read_all(step, p).0);
                        assert(text_views(failed@) =~= spec_read_all(step, p).1);
                    }
                    i = i + 1;
                }
                proof {
                    assert(m.take(n as int) =~= m);
                }
            },
        }
        (texts, failed)
    }

    /// The identifier and ciphertext of the entry at an enumeration
    /// position, for callers that walk the whole store (persisting it, or a
    /// full-store pass).
    pub fn entry_at(&self, i: usize) -> (r: Option<(String, Vec<u8>)>)
        ensures
            i < self.store().model().len() ==> r is Some && (r->0).0@ == self.store().model()[i as int].0
                && (r->0).1@ == self.store().model()[i as int].1,
            i >= self.store().model().len() ==> r is None,
    {
        self.directory.file_at(i)
    }

    /// The current listing of identifiers, newest first whenever it is
    /// fresh; an empty listing for an empty store.
    pub fn entries(&mut self) -> (r: Vec<String>)
        requires
            old(self).wf(),
        ensures
            final(self).wf(),
            final(self).passphrase() == old(self).passphrase(),
            final(self).pending() == old(self).pending(),
            final(self).store().model() == old(self).store().model(),
            final(self).store().dir_path() == old(self).store().dir_path(),
            text_views(r@) == final(self).store().cache(),
            r@.len() == old(self).store().model().len(),
            old(self).store().model().len() != old(self).store().last_count() ==> cache_refreshed(
                old(self).store(),
                final(self).store(),
            ),
            old(self).store().model().len() == old(self).store().last_count() ==> cache_kept(
                old(self).store(),
                final(self).store(),
            ),
    {
        self.directory.entries()
    }
}

/// After a full rotation from `oldp` to a different passphrase `newp` — the
/// store `m` became `m2`, every entry re-encrypted — verification succeeds
/// under the new passphrase, fails under the old one as soon as the listing
/// names a surviving entry, and every listed surviving entry reads back
/// exactly the text it carried before the rotation.
pub proof fn lemma_rotation_switches_passphrase(
    m: Seq<(Seq<char>, Seq<u8>)>,
    m2: Seq<(Seq<char>, Seq<u8>)>,
    cache: Seq<Seq<char>>,
    oldp: Seq<char>,
    newp: Seq<char>,
)
    requires
        oldp != newp,
        m2.len() == m.len(),
        forall|i: int| 0 <= i < m.len() ==> (#[trigger] m2[i]).0 == m[i].0,
        forall|i: int|
            0 <= i < m.len() ==> spec_decrypt(oldp, (#[trigger] m[i]).1) is Ok && cipher_for(
                newp,
                spec_decrypt(oldp, m[i].1)->Ok_0,
                m2[i].1,
            ),
    ensures
        spec_verify(m2, cache, Option::Some(newp)),
        cache.len() > 0 && has_id(m2, cache[0]) ==> !spec_verify(m2, cache, Option::Some(oldp)),
        forall|n: int|
            0 <= n < cache.len() && has_id(m2, cache[n]) ==> spec_nth_content(
                m2,
                cache,
                Option::Some(newp),
                n,
            ) == Result::<Seq<char>, AppError>::Ok(
                spec_decrypt(oldp, m[id_index(m2, cache[n])].1)->Ok_0,
            ),
{
    assert forall|n: int| 0 <= n < cache.len() && has_id(m2, cache[n]) implies spec_nth_content(
        m2,
        cache,
        Option::Some(newp),
        n,
    ) == Result::<Seq<char>, AppError>::Ok(
        spec_decrypt(oldp, m[id_index(m2, cache[n])].1)->Ok_0,
    ) by {
        file::lemma_id_index_props(m2, cache[n]);
        let k = id_index(m2, cache[n]);
        lemma_encrypt_decrypt_round_trip(newp, spec_decrypt(oldp, m[k].1)->Ok_0, m2[k].1);
    }
    if cache.len() > 0 && has_id(m2, cache[0]) {
        file::lemma_id_index_props(m2, cache[0]);
        let k = id_index(m2, cache[0]);
        lemma_encrypt_decrypt_round_trip(newp, spec_decrypt(oldp, m[k].1)->Ok_0, m2[k].1);
        lemma_decrypt_wrong_passphrase(newp, oldp, spec_decrypt(oldp, m[k].1)->Ok_0, m2[k].1);
    }
}

} // verus!
