//! The signing of one image file: what is decided about it, and what is handed to `c2pa`.

use vstd::prelude::*;

use crate::encoding::{encodable, is_json_refusal, json_of_bytes, json_of_text, json_text};
use crate::json::{distinct_keys, is_read_back, nests_within, Json, JsonTree, SyntaxError};
use crate::manifest::{are_clock_readings, are_utc_times, creation_times, lemma_restamped_keys};
use crate::manifest::{lemma_restamped_nests, read_clock_for, restamp, restamped, text_views};
use crate::reply::{Reply, ReplyView};

verus! {

/// A manifest that is about to be signed into a file.
#[verifier::external_type_specification]
#[verifier::external_body]
pub struct ExBuilder(c2pa::Builder);

/// Why `c2pa` failed.
#[verifier::external_type_specification]
#[verifier::external_body]
pub struct ExC2paError(c2pa::Error);

/// `builder` holds the manifest definition that `json` denotes.
pub uninterp spec fn is_built_from(builder: c2pa::Builder, json: Seq<char>) -> bool;

/// `error` is what `c2pa::Builder::from_json` says where it makes no builder of `json`.
pub uninterp spec fn is_refusal_of(error: c2pa::Error, json: Seq<char>) -> bool;

/// `c2pa::Builder::from_json`: a builder that holds the definition it is given, or what is said of
/// that definition. Whether there is a builder is left unsaid: that rests on the settings of the
/// thread, besides the definition.
#[verifier::external_body]
fn builder_from_json(json: &str) -> (res: Result<c2pa::Builder, c2pa::Error>)
    ensures
        match res {
            Ok(builder) => is_built_from(builder, json@),
            Err(error) => is_refusal_of(error, json@),
        },
{
    c2pa::Builder::from_json(json)
}

/// What signs a file: a signer of `c2pa`.
#[verifier::external_body]
pub struct FileSigner(pub c2pa::BoxedSigner);

/// `c2pa` makes a signer of a certificate and a private key, which asks the time stamp authority
/// that is named, if one is.
pub uninterp spec fn keys_are_accepted(
    certificate: Seq<u8>,
    private_key: Seq<u8>,
    algorithm: SigningAlgorithm,
    time_stamp_authority: Option<Seq<char>>,
) -> bool;

/// `signer` signs with a certificate and a private key, and asks the time stamp authority that is
/// named, if one is.
pub uninterp spec fn is_signer_of(
    signer: FileSigner,
    certificate: Seq<u8>,
    private_key: Seq<u8>,
    algorithm: SigningAlgorithm,
    time_stamp_authority: Option<Seq<char>>,
) -> bool;

/// `error` is what `c2pa` says of a certificate and a private key that it makes no signer of.
pub uninterp spec fn is_key_refusal(
    error: c2pa::Error,
    certificate: Seq<u8>,
    private_key: Seq<u8>,
    algorithm: SigningAlgorithm,
    time_stamp_authority: Option<Seq<char>>,
) -> bool;

/// The URL of a time stamp authority, if one is named.
pub open spec fn authority_view(authority: Option<String>) -> Option<Seq<char>> {
    match authority {
        Some(url) => Some(url@),
        None => None,
    }
}

/// `c2pa::create_signer::from_keys`: whether there is a signer depends on the arguments alone. It
/// signs with these, asks the time stamp authority that is named, if one is, and where there is no
/// signer, the error is about these.
#[verifier::external_body]
fn signer_from_keys(
    certificate: &Vec<u8>,
    private_key: &Vec<u8>,
    algorithm: SigningAlgorithm,
    time_stamp_authority: Option<String>,
) -> (res: Result<FileSigner, c2pa::Error>)
    ensures
        match res {
            Ok(signer) => keys_are_accepted(
                certificate@,
                private_key@,
                algorithm,
                authority_view(time_stamp_authority),
            ) && is_signer_of(
                signer,
                certificate@,
                private_key@,
                algorithm,
                authority_view(time_stamp_authority),
            ),
            Err(error) => !keys_are_accepted(
                certificate@,
                private_key@,
                algorithm,
                authority_view(time_stamp_authority),
            ) && is_key_refusal(
                error,
                certificate@,
                private_key@,
                algorithm,
                authority_view(time_stamp_authority),
            ),
        },
{
    let algorithm = match algorithm {
        SigningAlgorithm::Es256 => c2pa::SigningAlg::Es256,
    };
    c2pa::create_signer::from_keys(certificate, private_key, algorithm, time_stamp_authority)
        .map(FileSigner)
}

/// What came of the signing of a file.
#[derive(Debug, Clone, Copy, PartialEq, Eq, Structural)]
pub enum SignOutcome {
    /// The output file is the signed image.
    Signed,
    /// The image was signed already. There is no output file.
    NoChange,
}

/// What images are signed with: the template of the manifest, and the keys.
pub struct SignerContext {
    manifest_json: Json,
    private_key: Vec<u8>,
    certificate: Vec<u8>,
}

/// Why there is nothing to sign with.
#[derive(Debug)]
pub enum LoadError<E> {
    /// The manifest could not be read.
    Manifest(E),
    /// The manifest is not JSON.
    ManifestSyntax(SyntaxError),
    /// The private key could not be read.
    PrivateKey(E),
    /// The certificate could not be read.
    Certificate(E),
}

/// Why a file was not signed.
#[derive(Debug)]
pub enum SignError<C> {
    /// There is nothing to sign with.
    Context(C),
    /// The manifest was refused.
    Builder(c2pa::Error),
    /// The keys were refused.
    Signer(c2pa::Error),
    /// The file could not be signed.
    File(c2pa::Error),
}

/// The algorithms that images are signed with.
#[derive(Debug, Clone, Copy, PartialEq, Eq, Structural)]
pub enum SigningAlgorithm {
    /// ECDSA with SHA-256.
    Es256,
}

/// A file that is to be looked at: does it have an active manifest?
pub struct Inspection<'a, P> {
    pub context: &'a SignerContext,
    pub input_path: P,
    pub output_path: P,
}

/// A file that is to be signed, with all that it is to be signed with.
pub struct FileSigning<P> {
    pub builder: c2pa::Builder,
    pub signer: FileSigner,
    pub input_path: P,
    pub output_path: P,
}

/// How far the signing of a file has come.
pub enum SignStep<'a, P, C> {
    /// The file is to be looked at.
    Inspect(Inspection<'a, P>),
    /// The file is to be signed.
    SignFile(FileSigning<P>),
    /// Nothing is left to be done.
    Done(Result<SignOutcome, SignError<C>>),
}

/// `json` is the text of the manifest that `template` gives, with readings of the clock as its
/// times of creation. It is read back to that manifest, but for the fractions in it.
pub open spec fn is_current_manifest(json: Seq<char>, template: JsonTree) -> bool {
    exists|times: Seq<Seq<char>>|
        {
            &&& times.len() == creation_times(template)
            &&& are_utc_times(times)
            &&& are_clock_readings(times)
            &&& json == json_text(#[trigger] restamped(template, times))
            &&& is_read_back(json_of_text(json), restamped(template, times))
        }
}

/// `builder` holds the manifest that `template` gives, with some times in UTC as its times of
/// creation.
pub open spec fn is_current_builder(builder: c2pa::Builder, template: JsonTree) -> bool {
    exists|json: Seq<char>|
        is_current_manifest(json, template) && #[trigger] is_built_from(builder, json)
}

/// `error` is what is said of the manifest that `template` gives, with some times in UTC as its
/// times of creation.
pub open spec fn is_current_refusal(error: c2pa::Error, template: JsonTree) -> bool {
    exists|json: Seq<char>|
        is_current_manifest(json, template) && #[trigger] is_refusal_of(error, json)
}

/// A file was seen to have an active manifest.
pub open spec fn is_signed_already<E>(active_manifest: Result<bool, E>) -> bool {
    active_manifest matches Ok(active) && active
}

/// What images are signed with, from the files that hold it. The first that could not be read or
/// understood is reported.
pub fn load_signer_context<E>(
    manifest: Result<Vec<u8>, E>,
    private_key: Result<Vec<u8>, E>,
    certificate: Result<Vec<u8>, E>,
) -> (res: Result<SignerContext, LoadError<E>>)
    ensures
        match manifest {
            Err(error) => res == Err::<SignerContext, _>(LoadError::Manifest(error)),
            Ok(bytes) => match (json_of_bytes(bytes@), private_key, certificate) {
                (None, _, _) => res matches Err(LoadError::ManifestSyntax(error))
                    && is_json_refusal(error.cause, bytes@),
                (_, Err(error), _) => res == Err::<SignerContext, _>(LoadError::PrivateKey(error)),
                (_, _, Err(error)) => res == Err::<SignerContext, _>(LoadError::Certificate(error)),
                (Some(tree), Ok(key), Ok(chain)) => res matches Ok(context) && context.manifest()
                    == tree && context.private_key() == key@ && context.certificate() == chain@,
            },
        },
{
    let manifest = match manifest {
        Ok(manifest) => manifest,
        Err(error) => return Err(LoadError::Manifest(error)),
    };
    let manifest_json = match Json::from_slice(manifest.as_slice()) {
        Ok(manifest_json) => manifest_json,
        Err(error) => return Err(LoadError::ManifestSyntax(error)),
    };
    let private_key = match private_key {
        Ok(private_key) => private_key,
        Err(error) => return Err(LoadError::PrivateKey(error)),
    };
    let certificate = match certificate {
        Ok(certificate) => certificate,
        Err(error) => return Err(LoadError::Certificate(error)),
    };
    Ok(SignerContext { manifest_json, private_key, certificate })
}

impl SignerContext {
    #[verifier::type_invariant]
    spec fn well_formed(&self) -> bool {
        distinct_keys(self.manifest_json@) && nests_within(self.manifest_json@, 127)
    }

    /// The template of the manifest.
    pub closed spec fn manifest(&self) -> JsonTree {
        self.manifest_json@
    }

    /// The private key.
    pub closed spec fn private_key(&self) -> Seq<u8> {
        self.private_key@
    }

    /// The certificate.
    pub closed spec fn certificate(&self) -> Seq<u8> {
        self.certificate@
    }

    /// The text of the manifest, with the given times as its times of creation. It is read back to
    /// that manifest, but for the fractions in it.
    pub fn manifest_json_at(&self, times: &Vec<String>) -> (res: String)
        ensures
            res@ == json_text(restamped(self.manifest(), text_views(times@))),
            is_read_back(json_of_text(res@), restamped(self.manifest(), text_views(times@))),
    {
        proof {
            use_type_invariant(self);
            lemma_restamped_keys(self.manifest(), text_views(times@));
            lemma_restamped_nests(self.manifest(), text_views(times@), 127);
        }
        let mut manifest = self.manifest_json.duplicate();
        restamp(&mut manifest, times);
        manifest.into_string()
    }

    /// The text of the manifest, with the present time as its times of creation.
    pub fn build_manifest_json(&self) -> (res: String)
        ensures
            is_current_manifest(res@, self.manifest()),
            exists|times: Seq<Seq<char>>|
                {
                    &&& times.len() == creation_times(self.manifest())
                    &&& are_clock_readings(times)
                    &&& res@ == json_text(#[trigger] restamped(self.manifest(), times))
                },
    {
        let times = read_clock_for(&self.manifest_json);
        let json = self.manifest_json_at(&times);
        assert(json@ == json_text(restamped(self.manifest(), text_views(times@))));
        json
    }

    /// Begins the signing of a file.
    pub fn sign<'a, P>(&'a self, input_path: P, output_path: P) -> (res: Inspection<'a, P>)
        ensures
            res == (Inspection { context: self, input_path, output_path }),
    {
        Inspection { context: self, input_path, output_path }
    }
}

impl<'a, P> Inspection<'a, P> {
    /// The keys that the file would be signed with are accepted. No time stamp authority is asked.
    pub open spec fn has_accepted_keys(self) -> bool {
        keys_are_accepted(
            self.context.certificate(),
            self.context.private_key(),
            SigningAlgorithm::Es256,
            None,
        )
    }

    /// `file` is the file with the keys that it is to be signed with.
    pub open spec fn is_to_sign(self, file: FileSigning<P>) -> bool {
        &&& is_signer_of(
            file.signer,
            self.context.certificate(),
            self.context.private_key(),
            SigningAlgorithm::Es256,
            None,
        )
        &&& file.input_path == self.input_path
        &&& file.output_path == self.output_path
    }

    /// `error` is what is said of the keys that the file would be signed with.
    pub open spec fn refuses_keys(self, error: c2pa::Error) -> bool {
        is_key_refusal(
            error,
            self.context.certificate(),
            self.context.private_key(),
            SigningAlgorithm::Es256,
            None,
        )
    }

    /// Goes on with what was seen of the file: whether it has an active manifest. A file that has
    /// one is signed already, and is left alone. A file in which no manifest can be read is not
    /// signed yet; that is no error.
    pub fn inspected<E, C>(self, active_manifest: Result<bool, E>) -> (res: SignStep<'a, P, C>)
        ensures
            match res {
                SignStep::Done(Ok(outcome)) => {
                    &&& is_signed_already(active_manifest)
                    &&& outcome == SignOutcome::NoChange
                },
                SignStep::Done(Err(SignError::Builder(error))) => {
                    &&& !is_signed_already(active_manifest)
                    &&& is_current_refusal(error, self.context.manifest())
                },
                SignStep::Done(Err(SignError::Signer(error))) => {
                    &&& !is_signed_already(active_manifest)
                    &&& exists|builder: c2pa::Builder| #[trigger]
                        is_current_builder(builder, self.context.manifest())
                    &&& !self.has_accepted_keys()
                    &&& self.refuses_keys(error)
                },
                SignStep::SignFile(file) => {
                    &&& !is_signed_already(active_manifest)
                    &&& self.has_accepted_keys()
                    &&& is_current_builder(file.builder, self.context.manifest())
                    &&& self.is_to_sign(file)
                },
                _ => false,
            },
            match active_manifest {
                Ok(true) => res == SignStep::<P, C>::Done(Ok(SignOutcome::NoChange)),
                _ => match res {
                    SignStep::SignFile(file) => {
                        &&& is_signer_of(
                            file.signer,
                            self.context.certificate(),
                            self.context.private_key(),
                            SigningAlgorithm::Es256,
                            None,
                        )
                        &&& file.input_path == self.input_path
                        &&& file.output_path == self.output_path
                        &&& exists|json: Seq<char>|
                            is_current_manifest(json, self.context.manifest())
                                && #[trigger] is_built_from(file.builder, json)
                    },
                    SignStep::Done(Err(SignError::Builder(error))) => exists|json: Seq<char>|
                        is_current_manifest(json, self.context.manifest())
                            && #[trigger] is_refusal_of(error, json),
                    SignStep::Done(Err(SignError::Signer(error))) => is_key_refusal(
                        error,
                        self.context.certificate(),
                        self.context.private_key(),
                        SigningAlgorithm::Es256,
                        None,
                    ),
                    _ => false,
                },
            },
    {
        if let Ok(true) = active_manifest {
            return SignStep::Done(Ok(SignOutcome::NoChange));
        }
        let json = self.context.build_manifest_json();
        let builder = builder_from_json(json.as_str());
        assert(builder matches Ok(built) ==> is_current_builder(built, self.context.manifest()));
        self.with_builder(builder)
    }

    /// Goes on with what became of the manifest: a signer is made of the keys.
    pub fn with_builder<C>(self, builder: Result<c2pa::Builder, c2pa::Error>) -> (res: SignStep<
        'a,
        P,
        C,
    >)
        ensures
            match builder {
                Ok(builder) => if self.has_accepted_keys() {
                    res matches SignStep::SignFile(file) && file.builder == builder
                        && self.is_to_sign(file)
                } else {
                    res matches SignStep::Done(Err(SignError::Signer(error)))
                        && self.refuses_keys(error)
                },
                Err(error) => res == SignStep::<P, C>::Done(Err(SignError::Builder(error))),
            },
            match res {
                SignStep::SignFile(file) => {
                    &&& builder == Ok::<_, c2pa::Error>(file.builder)
                    &&& is_signer_of(
                        file.signer,
                        self.context.certificate(),
                        self.context.private_key(),
                        SigningAlgorithm::Es256,
                        None,
                    )
                    &&& file.input_path == self.input_path
                    &&& file.output_path == self.output_path
                },
                SignStep::Done(Err(SignError::Signer(error))) => {
                    &&& builder is Ok
                    &&& is_key_refusal(
                        error,
                        self.context.certificate(),
                        self.context.private_key(),
                        SigningAlgorithm::Es256,
                        None,
                    )
                },
                SignStep::Done(Err(SignError::Builder(error))) => {
                    builder matches Err(refusal) && refusal == error
                },
                _ => false,
            },
            builder is Ok && keys_are_accepted(
                self.context.certificate(),
                self.context.private_key(),
                SigningAlgorithm::Es256,
                None,
            ) ==> res is SignFile,
    {
        match builder {
            Ok(builder) => match signer_from_keys(
                &self.context.certificate,
                &self.context.private_key,
                SigningAlgorithm::Es256,
                None,
            ) {
                Ok(signer) => SignStep::SignFile(
                    FileSigning {
                        builder,
                        signer,
                        input_path: self.input_path,
                        output_path: self.output_path,
                    },
                ),
                Err(error) => SignStep::Done(Err(SignError::Signer(error))),
            },
            Err(error) => SignStep::Done(Err(SignError::Builder(error))),
        }
    }
}

/// What came of the signing of a file, from what `c2pa` made of it.
pub fn file_signed<C>(result: Result<(), c2pa::Error>) -> (res: Result<SignOutcome, SignError<C>>)
    ensures
        match result {
            Ok(_) => res == Ok::<_, SignError<C>>(SignOutcome::Signed),
            Err(error) => res == Err::<SignOutcome, _>(SignError::<C>::File(error)),
        },
{
    match result {
        Ok(_) => Ok(SignOutcome::Signed),
        Err(error) => Err(SignError::File(error)),
    }
}

/// What there is to sign with, or why there is nothing, as it was loaded.
pub fn get_signer_context<E>(loaded: &Result<SignerContext, LoadError<E>>) -> (res: Result<
    &SignerContext,
    &LoadError<E>,
>)
    ensures
        match *loaded {
            Ok(context) => res == Ok::<_, &LoadError<E>>(&context),
            Err(error) => res == Err::<&SignerContext, _>(&error),
        },
{
    match loaded {
        Ok(context) => Ok(context),
        Err(error) => Err(error),
    }
}

/// Begins the signing of a file, with what there is to sign with.
pub fn sign_image<'a, P, C>(
    context: Result<&'a SignerContext, C>,
    input_path: P,
    output_path: P,
) -> (res: SignStep<'a, P, C>)
    ensures
        match context {
            Ok(context) => res == SignStep::<P, C>::Inspect(
                Inspection { context, input_path, output_path },
            ),
            Err(error) => res == SignStep::<P, C>::Done(Err(SignError::Context(error))),
        },
{
    match context {
        Ok(context) => SignStep::Inspect(context.sign(input_path, output_path)),
        Err(error) => SignStep::Done(Err(SignError::Context(error))),
    }
}

impl<C> SignError<C> {
    /// What the error is, in words.
    pub fn message(&self) -> (res: &'static str)
        ensures
            res@ == match self {
                SignError::Context(_) => "Signer context initialization failed"@,
                SignError::Builder(_) => "Failed to create Builder from JSON"@,
                SignError::Signer(_) => "Failed to create signer"@,
                SignError::File(_) => "Failed to sign file"@,
            },
    {
        match self {
            SignError::Context(_) => "Signer context initialization failed",
            SignError::Builder(_) => "Failed to create Builder from JSON",
            SignError::Signer(_) => "Failed to create signer",
            SignError::File(_) => "Failed to sign file",
        }
    }
}

/// The names of the temporary files that an image is signed through.
#[derive(Debug)]
pub struct TemporaryNames {
    /// What the name of the input file starts with.
    pub input_prefix: &'static str,
    /// What the names of both files end with: the extension, after a dot.
    pub suffix: String,
    /// What the name of the directory of the output file starts with.
    pub output_prefix: &'static str,
    /// The name of the output file in its directory.
    pub output_name: String,
}

/// The names of the temporary files for an image with the given extension.
pub fn temporary_names(extension: &str) -> (res: TemporaryNames)
    ensures
        res.input_prefix@ == "agw-c2pa-in-"@,
        res.suffix@ == "."@ + extension@,
        res.output_prefix@ == "agw-c2pa-out-"@,
        res.output_name@ == "signed"@ + ("."@ + extension@),
{
    let mut suffix = ".".to_owned();
    suffix.append(extension);
    let mut output_name = "signed".to_owned();
    output_name.append(suffix.as_str());
    TemporaryNames {
        input_prefix: "agw-c2pa-in-",
        suffix,
        output_prefix: "agw-c2pa-out-",
        output_name,
    }
}

/// What comes after the signing of a file.
#[derive(Debug, PartialEq, Eq)]
pub enum AfterSigning {
    /// The signed image is to be read back.
    ReadBack,
    /// There is no signed image, and this is the answer.
    Answer(Reply),
}

/// What comes after the signing of a file. An image that was signed already is left as it is; that
/// is no failure.
pub fn after_signing<E>(outcome: &Result<SignOutcome, E>) -> (res: AfterSigning)
    ensures
        res == match outcome {
            Ok(SignOutcome::Signed) => AfterSigning::ReadBack,
            Ok(SignOutcome::NoChange) => AfterSigning::Answer(Reply::NoChange),
            Err(_) => AfterSigning::Answer(Reply::Failed),
        },
{
    match outcome {
        Ok(SignOutcome::Signed) => AfterSigning::ReadBack,
        Ok(SignOutcome::NoChange) => AfterSigning::Answer(Reply::NoChange),
        Err(_) => AfterSigning::Answer(Reply::Failed),
    }
}

/// The answer to a request for a signature, from what was read of the signed image. An image whose
/// base64 text would not fit into memory is of no use.
pub fn read_back<E>(signed: Result<Vec<u8>, E>) -> (res: Reply)
    ensures
        res@ == match signed {
            Ok(bytes) if encodable(bytes@.len()) => ReplyView::Signed(bytes@),
            _ => ReplyView::Failed,
        },
        match signed {
            Ok(bytes) => if 4 * ((bytes@.len() + 2) / 3) <= isize::MAX {
                res matches Reply::Signed(read) && read@ == bytes@
            } else {
                res is Failed
            },
            Err(_) => res is Failed,
        },
{
    match signed {
        Ok(bytes) => if bytes.len() <= 3 * (isize::MAX as usize / 4) {
            Reply::Signed(bytes)
        } else {
            Reply::Failed
        },
        Err(_) => Reply::Failed,
    }
}

} // verus!
