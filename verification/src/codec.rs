//! The serialization capability: how bundles and locks become text and text
//! becomes bundles and locks again.

use vstd::prelude::*;
use crate::bundle::{Bundle, BundleView, Lock, LockView};

verus! {

/// Encodes bundles and locks as text and decodes them again.
///
/// The operations of this crate hand a codec what they are about to store and
/// what they have read, and go on with whatever it gives back; where it gives
/// nothing they fail with `Error::SerializationFailure`. The relations name
/// what a codec may do: the `encodes_` and `decodes_` ones what it may give,
/// the `refuses_` ones where it may give nothing. As they stand they allow
/// everything, and an implementation may narrow them.
pub trait Codec {
    /// `text` is a possible encoding of `bundle`.
    open spec fn encodes_bundle(&self, bundle: BundleView, text: Seq<char>) -> bool {
        true
    }

    /// `bundle` is a possible reading of `text`.
    open spec fn decodes_bundle(&self, text: Seq<char>, bundle: BundleView) -> bool {
        true
    }

    /// `text` is a possible encoding of `lock`.
    open spec fn encodes_lock(&self, lock: LockView, text: Seq<char>) -> bool {
        true
    }

    /// `lock` is a possible reading of `text`.
    open spec fn decodes_lock(&self, text: Seq<char>, lock: LockView) -> bool {
        true
    }

    /// `bundle` may be left without an encoding.
    open spec fn refuses_bundle(&self, bundle: BundleView) -> bool {
        true
    }

    /// `text` may be left without a reading as a bundle.
    open spec fn refuses_bundle_text(&self, text: Seq<char>) -> bool {
        true
    }

    /// `lock` may be left without an encoding.
    open spec fn refuses_lock(&self, lock: LockView) -> bool {
        true
    }

    /// `text` may be left without a reading as a lock.
    open spec fn refuses_lock_text(&self, text: Seq<char>) -> bool {
        true
    }

    /// The text that stands for `bundle`, or `None` where it cannot be
    /// encoded.
    fn encode_bundle(&self, bundle: &Bundle) -> (r: Option<String>)
        ensures
            match r {
                Some(text) => self.encodes_bundle(bundle@, text@),
                None => self.refuses_bundle(bundle@),
            },
    ;

    /// The bundle that `text` stands for, or `None` where it stands for
    /// none.
    fn decode_bundle(&self, text: &str) -> (r: Option<Bundle>)
        ensures
            match r {
                Some(bundle) => self.decodes_bundle(text@, bundle@),
                None => self.refuses_bundle_text(text@),
            },
    ;

    /// The text that stands for `lock`, or `None` where it cannot be encoded.
    fn encode_lock(&self, lock: &Lock) -> (r: Option<String>)
        ensures
            match r {
                Some(text) => self.encodes_lock(lock@, text@),
                None => self.refuses_lock(lock@),
            },
    ;

    /// The lock that `text` stands for, or `None` where it stands for none.
    fn decode_lock(&self, text: &str) -> (r: Option<Lock>)
        ensures
            match r {
                Some(lock) => self.decodes_lock(text@, lock@),
                None => self.refuses_lock_text(text@),
            },
    ;
}

/// The codec reads a text in one way only: as one bundle or lock and no
/// other, or not at all.
pub open spec fn reads_in_one_way<C: Codec>(codec: &C) -> bool {
    &&& forall|text: Seq<char>, a: BundleView, b: BundleView|
        #[trigger] codec.decodes_bundle(text, a) && #[trigger] codec.decodes_bundle(text, b) ==> a
            == b
    &&& forall|text: Seq<char>, a: BundleView| #[trigger]
        codec.decodes_bundle(text, a) ==> !codec.refuses_bundle_text(text)
    &&& forall|text: Seq<char>, a: LockView, b: LockView|
        #[trigger] codec.decodes_lock(text, a) && #[trigger] codec.decodes_lock(text, b) ==> a == b
    &&& forall|text: Seq<char>, a: LockView| #[trigger]
        codec.decodes_lock(text, a) ==> !codec.refuses_lock_text(text)
}

/// The codec loses nothing: every text that it gives for a bundle or a lock
/// it reads, and as that bundle or lock only.
pub open spec fn loses_nothing<C: Codec>(codec: &C) -> bool {
    &&& forall|bundle: BundleView, text: Seq<char>| #[trigger]
        codec.encodes_bundle(bundle, text) ==> !codec.refuses_bundle_text(text)
    &&& forall|bundle: BundleView, text: Seq<char>, read: BundleView|
        #[trigger] codec.encodes_bundle(bundle, text) && #[trigger] codec.decodes_bundle(
            text,
            read,
        ) ==> read == bundle
    &&& forall|lock: LockView, text: Seq<char>| #[trigger]
        codec.encodes_lock(lock, text) ==> !codec.refuses_lock_text(text)
    &&& forall|lock: LockView, text: Seq<char>, read: LockView|
        #[trigger] codec.encodes_lock(lock, text) && #[trigger] codec.decodes_lock(text, read)
            ==> read == lock
}

/// Over a codec that reads a text in one way only, the lossless codec loses
/// nothing.
pub proof fn lemma_lossless_loses_nothing<C: Codec>(codec: &Lossless<C>)
    requires
        reads_in_one_way(&codec.inner),
    ensures
        loses_nothing(codec),
        reads_in_one_way(codec),
{
}

/// A codec that gives out only text which it reads back as the value that
/// was encoded: it encodes with `inner`, decodes what it got, and gives
/// nothing where that is another value. So it gives out the text that `inner`
/// gives, and refuses only where `inner` refuses to encode the value or to
/// read its own text, or reads it as another value. It decodes as `inner`
/// does.
pub struct Lossless<C: Codec> {
    pub inner: C,
}

impl<C: Codec> Lossless<C> {
    /// The lossless codec over `inner`.
    pub fn new(inner: C) -> (r: Lossless<C>)
        ensures
            r.inner == inner,
    {
        Lossless { inner }
    }
}

impl<C: Codec> Codec for Lossless<C> {
    open spec fn encodes_bundle(&self, bundle: BundleView, text: Seq<char>) -> bool {
        self.inner.encodes_bundle(bundle, text) && self.inner.decodes_bundle(text, bundle)
    }

    open spec fn decodes_bundle(&self, text: Seq<char>, bundle: BundleView) -> bool {
        self.inner.decodes_bundle(text, bundle)
    }

    open spec fn encodes_lock(&self, lock: LockView, text: Seq<char>) -> bool {
        self.inner.encodes_lock(lock, text) && self.inner.decodes_lock(text, lock)
    }

    open spec fn decodes_lock(&self, text: Seq<char>, lock: LockView) -> bool {
        self.inner.decodes_lock(text, lock)
    }

    open spec fn refuses_bundle(&self, bundle: BundleView) -> bool {
        ||| self.inner.refuses_bundle(bundle)
        ||| exists|text: Seq<char>|
            #[trigger] self.inner.encodes_bundle(bundle, text) && self.inner.refuses_bundle_text(
                text,
            )
        ||| exists|text: Seq<char>, read: BundleView|
            self.inner.encodes_bundle(bundle, text) && #[trigger] self.inner.decodes_bundle(
                text,
                read,
            ) && read != bundle
    }

    open spec fn refuses_bundle_text(&self, text: Seq<char>) -> bool {
        self.inner.refuses_bundle_text(text)
    }

    open spec fn refuses_lock(&self, lock: LockView) -> bool {
        ||| self.inner.refuses_lock(lock)
        ||| exists|text: Seq<char>|
            #[trigger] self.inner.encodes_lock(lock, text) && self.inner.refuses_lock_text(text)
        ||| exists|text: Seq<char>, read: LockView|
            self.inner.encodes_lock(lock, text) && #[trigger] self.inner.decodes_lock(text, read)
                && read != lock
    }

    open spec fn refuses_lock_text(&self, text: Seq<char>) -> bool {
        self.inner.refuses_lock_text(text)
    }

    /// The text that `inner` gives for `bundle`, where `inner` reads that
    /// text as `bundle` again. Gives nothing where `inner` cannot encode the
    /// bundle or cannot read its own text, or reads the text as another
    /// bundle.
    fn encode_bundle(&self, bundle: &Bundle) -> (r: Option<String>) {
        let text = match self.inner.encode_bundle(bundle) {
            None => {
                return None;
            },
            Some(text) => text,
        };
        match self.inner.decode_bundle(text.as_str()) {
            None => None,
            Some(read) => if read.same(bundle) {
                Some(text)
            } else {
                None
            },
        }
    }

    /// What `inner` reads `text` as, or nothing where `inner` reads nothing.
    fn decode_bundle(&self, text: &str) -> (r: Option<Bundle>) {
        self.inner.decode_bundle(text)
    }

    /// The text that `inner` gives for `lock`, where `inner` reads that text
    /// as `lock` again. Gives nothing where `inner` cannot encode the lock or
    /// cannot read its own text, or reads the text as another lock.
    fn encode_lock(&self, lock: &Lock) -> (r: Option<String>) {
        let text = match self.inner.encode_lock(lock) {
            None => {
                return None;
            },
            Some(text) => text,
        };
        match self.inner.decode_lock(text.as_str()) {
            None => None,
            Some(read) => if read.same(lock) {
                Some(text)
            } else {
                None
            },
        }
    }

    /// What `inner` reads `text` as, or nothing where `inner` reads nothing.
    fn decode_lock(&self, text: &str) -> (r: Option<Lock>) {
        self.inner.decode_lock(text)
    }
}

} // verus!
