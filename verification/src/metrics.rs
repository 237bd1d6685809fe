//! Labels and counts that the crypto component and the HTTP adapter report
//! as metrics.

use vstd::prelude::*;
use vstd::string::StringExecFns;

verus! {

/// Causes of failed requests of the HTTP adapter, as its error counter
/// labels them.
pub const LABEL_BODY_RECEIVE_SIZE: &'static str = "body_receive_size";

pub const LABEL_BODY_RECEIVE_TIMEOUT: &'static str = "body_receive_timeout";

pub const LABEL_HEADER_RECEIVE_SIZE: &'static str = "header_receive_size";

pub const LABEL_HTTP_SCHEME: &'static str = "http_scheme";

pub const LABEL_HTTP_METHOD: &'static str = "http_method";

pub const LABEL_RESPONSE_HEADERS: &'static str = "response_headers";

pub const LABEL_REQUEST_HEADERS: &'static str = "request_headers";

pub const LABEL_CONNECT: &'static str = "connect";

pub const LABEL_URL_PARSE: &'static str = "url_parse";

/// Directions of the traffic of the HTTP adapter, as its traffic counter
/// labels them.
pub const LABEL_UPLOAD: &'static str = "up";

pub const LABEL_DOWNLOAD: &'static str = "down";

/// The snake case form of a name, as `convert_case` makes it.
pub uninterp spec fn snake_case_of(name: Seq<char>) -> Seq<char>;

/// Calls `Casing::to_case` of `convert_case` with `Case::Snake`, which
/// splits the name into words, writes them in lower case and joins them
/// with underscores. The contract gives the result the name
/// `snake_case_of`: it depends on the characters of the name alone.
#[verifier::external_body]
pub(crate) fn to_snake_case(name: &str) -> (label: String)
    ensures
        label@ == snake_case_of(name@),
{
    convert_case::Casing::to_case(&name, convert_case::Case::Snake)
}

/// The place where a node's keys are counted.
#[derive(Clone, Copy, Debug, PartialEq, Eq, PartialOrd, Ord, Structural)]
pub enum KeyType {
    PublicRegistry,
    PublicLocal,
    SecretSKS,
}

impl KeyType {
    /// The name of the variant.
    pub open spec fn variant_name(self) -> Seq<char> {
        match self {
            KeyType::PublicRegistry => "PublicRegistry"@,
            KeyType::PublicLocal => "PublicLocal"@,
            KeyType::SecretSKS => "SecretSKS"@,
        }
    }

    /// The name of the variant.
    pub fn as_str(&self) -> (name: &'static str)
        ensures
            name@ == self.variant_name(),
    {
        match self {
            KeyType::PublicRegistry => "PublicRegistry",
            KeyType::PublicLocal => "PublicLocal",
            KeyType::SecretSKS => "SecretSKS",
        }
    }

    /// The label under which the variant is reported: its name in snake
    /// case.
    pub fn label(&self) -> (label: String)
        ensures
            label@ == snake_case_of(self.variant_name()),
    {
        to_snake_case(self.as_str())
    }

    /// All variants, in the order of their declaration.
    pub fn all() -> (all: Vec<KeyType>)
        ensures
            all@ == seq![KeyType::PublicRegistry, KeyType::PublicLocal, KeyType::SecretSKS],
    {
        let mut all: Vec<KeyType> = Vec::new();
        all.push(KeyType::PublicRegistry);
        all.push(KeyType::PublicLocal);
        all.push(KeyType::SecretSKS);
        assert(all@ =~= seq![KeyType::PublicRegistry, KeyType::PublicLocal, KeyType::SecretSKS]);
        all
    }

    /// Name of the gauge that counts the keys of this kind.
    pub fn key_count_metric_name(&self) -> (name: String)
        ensures
            name@ == "crypto_"@ + snake_case_of(self.variant_name()) + "_key_count"@,
    {
        let label: String = self.label();
        String::from_str("crypto_").concat(label.as_str()).concat("_key_count")
    }

    /// Help text of the gauge that counts the keys of this kind.
    pub fn key_count_metric_help(&self) -> (help: String)
        ensures
            help@ == "Number of crypto_"@ + snake_case_of(self.variant_name()) + "_key_count"@,
    {
        let label: String = self.label();
        String::from_str("Number of crypto_").concat(label.as_str()).concat("_key_count")
    }
}

/// The part of the crypto component that a measurement belongs to.
#[derive(Clone, Copy, Debug, PartialEq, Eq, PartialOrd, Ord, Structural)]
pub enum MetricsDomain {
    BasicSignature,
    MultiSignature,
    ThresholdSignature,
    NiDkgAlgorithm,
    TlsHandshake,
    IDkgProtocol,
    ThresholdEcdsa,
    IcCanisterSignature,
    PublicSeed,
    KeyManagement,
}

impl MetricsDomain {
    /// The name of the variant.
    pub open spec fn variant_name(self) -> Seq<char> {
        match self {
            MetricsDomain::BasicSignature => "BasicSignature"@,
            MetricsDomain::MultiSignature => "MultiSignature"@,
            MetricsDomain::ThresholdSignature => "ThresholdSignature"@,
            MetricsDomain::NiDkgAlgorithm => "NiDkgAlgorithm"@,
            MetricsDomain::TlsHandshake => "TlsHandshake"@,
            MetricsDomain::IDkgProtocol => "IDkgProtocol"@,
            MetricsDomain::ThresholdEcdsa => "ThresholdEcdsa"@,
            MetricsDomain::IcCanisterSignature => "IcCanisterSignature"@,
            MetricsDomain::PublicSeed => "PublicSeed"@,
            MetricsDomain::KeyManagement => "KeyManagement"@,
        }
    }

    /// The name of the variant.
    pub fn as_str(&self) -> (name: &'static str)
        ensures
            name@ == self.variant_name(),
    {
        match self {
            MetricsDomain::BasicSignature => "BasicSignature",
            MetricsDomain::MultiSignature => "MultiSignature",
            MetricsDomain::ThresholdSignature => "ThresholdSignature",
            MetricsDomain::NiDkgAlgorithm => "NiDkgAlgorithm",
            MetricsDomain::TlsHandshake => "TlsHandshake",
            MetricsDomain::IDkgProtocol => "IDkgProtocol",
            MetricsDomain::ThresholdEcdsa => "ThresholdEcdsa",
            MetricsDomain::IcCanisterSignature => "IcCanisterSignature",
            MetricsDomain::PublicSeed => "PublicSeed",
            MetricsDomain::KeyManagement => "KeyManagement",
        }
    }

    /// The label under which the variant is reported: its name in snake
    /// case.
    pub fn label(&self) -> (label: String)
        ensures
            label@ == snake_case_of(self.variant_name()),
    {
        to_snake_case(self.as_str())
    }
}

/// Whether a duration covers the whole call or the local computation only.
#[derive(Clone, Copy, Debug, PartialEq, Eq, PartialOrd, Ord, Structural)]
pub enum MetricsScope {
    Full,
    Local,
}

impl MetricsScope {
    /// The name of the variant.
    pub open spec fn variant_name(self) -> Seq<char> {
        match self {
            MetricsScope::Full => "Full"@,
            MetricsScope::Local => "Local"@,
        }
    }

    /// The name of the variant.
    pub fn as_str(&self) -> (name: &'static str)
        ensures
            name@ == self.variant_name(),
    {
        match self {
            MetricsScope::Full => "Full",
            MetricsScope::Local => "Local",
        }
    }

    /// The label under which the variant is reported: its name in snake
    /// case.
    pub fn label(&self) -> (label: String)
        ensures
            label@ == snake_case_of(self.variant_name()),
    {
        to_snake_case(self.as_str())
    }
}

/// Whether the measured operation succeeded.
#[derive(Clone, Copy, Debug, PartialEq, Eq, PartialOrd, Ord, Structural)]
pub enum MetricsResult {
    /// Reported as `ok`.
    Success,
    /// Reported as `err`.
    Failure,
}

impl MetricsResult {
    /// The name that the label is made from.
    pub open spec fn variant_name(self) -> Seq<char> {
        match self {
            MetricsResult::Success => "Ok"@,
            MetricsResult::Failure => "Err"@,
        }
    }

    /// The name of the variant.
    pub fn as_str(&self) -> (name: &'static str)
        ensures
            name@ == self.variant_name(),
    {
        match self {
            MetricsResult::Success => "Ok",
            MetricsResult::Failure => "Err",
        }
    }

    /// The label under which the variant is reported: its name in snake
    /// case.
    pub fn label(&self) -> (label: String)
        ensures
            label@ == snake_case_of(self.variant_name()),
    {
        to_snake_case(self.as_str())
    }
}

impl<T, E> From<&Result<T, E>> for MetricsResult {
    /// Whether the result of an operation is a success or a failure.
    fn from(result: &Result<T, E>) -> (r: MetricsResult) {
        match result {
            Ok(_) => MetricsResult::Success,
            Err(_) => MetricsResult::Failure,
        }
    }
}

impl<T, E> vstd::std_specs::convert::FromSpecImpl<&Result<T, E>> for MetricsResult {
    open spec fn obeys_from_spec() -> bool {
        true
    }

    open spec fn from_spec(result: &Result<T, E>) -> MetricsResult {
        if result is Ok {
            MetricsResult::Success
        } else {
            MetricsResult::Failure
        }
    }
}

/// How an attempt to rotate the dealing encryption key ended.
#[derive(Clone, Copy, Debug, PartialEq, Eq, PartialOrd, Ord, Structural)]
pub enum KeyRotationResult {
    KeyRotated,
    LatestLocalRotationTooRecent,
    KeyGenerationError,
    RegistryError,
    KeyRotationNotEnabled,
    KeyNotRotated,
    RegistryKeyBadOrMissing,
}

impl KeyRotationResult {
    /// The name of the variant.
    pub open spec fn variant_name(self) -> Seq<char> {
        match self {
            KeyRotationResult::KeyRotated => "KeyRotated"@,
            KeyRotationResult::LatestLocalRotationTooRecent => "LatestLocalRotationTooRecent"@,
            KeyRotationResult::KeyGenerationError => "KeyGenerationError"@,
            KeyRotationResult::RegistryError => "RegistryError"@,
            KeyRotationResult::KeyRotationNotEnabled => "KeyRotationNotEnabled"@,
            KeyRotationResult::KeyNotRotated => "KeyNotRotated"@,
            KeyRotationResult::RegistryKeyBadOrMissing => "RegistryKeyBadOrMissing"@,
        }
    }

    /// The name of the variant.
    pub fn as_str(&self) -> (name: &'static str)
        ensures
            name@ == self.variant_name(),
    {
        match self {
            KeyRotationResult::KeyRotated => "KeyRotated",
            KeyRotationResult::LatestLocalRotationTooRecent => "LatestLocalRotationTooRecent",
            KeyRotationResult::KeyGenerationError => "KeyGenerationError",
            KeyRotationResult::RegistryError => "RegistryError",
            KeyRotationResult::KeyRotationNotEnabled => "KeyRotationNotEnabled",
            KeyRotationResult::KeyNotRotated => "KeyNotRotated",
            KeyRotationResult::RegistryKeyBadOrMissing => "RegistryKeyBadOrMissing",
        }
    }

    /// The label under which the variant is reported: its name in snake
    /// case.
    pub fn label(&self) -> (label: String)
        ensures
            label@ == snake_case_of(self.variant_name()),
    {
        to_snake_case(self.as_str())
    }
}

/// The side of the vault connection on which a message was measured.
#[derive(Clone, Copy, Debug, PartialEq, Eq, PartialOrd, Ord, Structural)]
pub enum ServiceType {
    Client,
    Server,
}

impl ServiceType {
    /// The name of the variant.
    pub open spec fn variant_name(self) -> Seq<char> {
        match self {
            ServiceType::Client => "Client"@,
            ServiceType::Server => "Server"@,
        }
    }

    /// The name of the variant.
    pub fn as_str(&self) -> (name: &'static str)
        ensures
            name@ == self.variant_name(),
    {
        match self {
            ServiceType::Client => "Client",
            ServiceType::Server => "Server",
        }
    }

    /// The label under which the variant is reported: its name in snake
    /// case.
    pub fn label(&self) -> (label: String)
        ensures
            label@ == snake_case_of(self.variant_name()),
    {
        to_snake_case(self.as_str())
    }
}

/// The direction of a vault message.
#[derive(Clone, Copy, Debug, PartialEq, Eq, PartialOrd, Ord, Structural)]
pub enum MessageType {
    Request,
    Response,
}

impl MessageType {
    /// The name of the variant.
    pub open spec fn variant_name(self) -> Seq<char> {
        match self {
            MessageType::Request => "Request"@,
            MessageType::Response => "Response"@,
        }
    }

    /// The name of the variant.
    pub fn as_str(&self) -> (name: &'static str)
        ensures
            name@ == self.variant_name(),
    {
        match self {
            MessageType::Request => "Request",
            MessageType::Response => "Response",
        }
    }

    /// The label under which the variant is reported: its name in snake
    /// case.
    pub fn label(&self) -> (label: String)
        ensures
            label@ == snake_case_of(self.variant_name()),
    {
        to_snake_case(self.as_str())
    }
}

/// The result of an operation that answers yes or no.
#[derive(Clone, Copy, Debug, PartialEq, Eq, Structural)]
pub enum BooleanResult {
    True,
    False,
}

impl BooleanResult {
    /// The name of the variant.
    pub open spec fn variant_name(self) -> Seq<char> {
        match self {
            BooleanResult::True => "True"@,
            BooleanResult::False => "False"@,
        }
    }

    /// The name of the variant.
    pub fn as_str(&self) -> (name: &'static str)
        ensures
            name@ == self.variant_name(),
    {
        match self {
            BooleanResult::True => "True",
            BooleanResult::False => "False",
        }
    }

    /// The label under which the variant is reported: its name in snake
    /// case.
    pub fn label(&self) -> (label: String)
        ensures
            label@ == snake_case_of(self.variant_name()),
    {
        to_snake_case(self.as_str())
    }
}

/// An operation that answers yes or no.
#[derive(Clone, Copy, Debug, PartialEq, Eq, Structural)]
pub enum BooleanOperation {
    KeyInRegistryMissingLocally,
    LatestLocalIDkgKeyExistsInRegistry,
}

impl BooleanOperation {
    /// The name of the variant.
    pub open spec fn variant_name(self) -> Seq<char> {
        match self {
            BooleanOperation::KeyInRegistryMissingLocally => "KeyInRegistryMissingLocally"@,
            BooleanOperation::LatestLocalIDkgKeyExistsInRegistry => "LatestLocalIDkgKeyExistsInRegistry"@,
        }
    }

    /// The name of the variant.
    pub fn as_str(&self) -> (name: &'static str)
        ensures
            name@ == self.variant_name(),
    {
        match self {
            BooleanOperation::KeyInRegistryMissingLocally => "KeyInRegistryMissingLocally",
            BooleanOperation::LatestLocalIDkgKeyExistsInRegistry => "LatestLocalIDkgKeyExistsInRegistry",
        }
    }

    /// The label under which the variant is reported: its name in snake
    /// case.
    pub fn label(&self) -> (label: String)
        ensures
            label@ == snake_case_of(self.variant_name()),
    {
        to_snake_case(self.as_str())
    }
}

/// The numbers of keys of a node: public keys (and certificates) in the
/// registry, public keys in the local public key store, and secret keys in
/// the local secret key store.
#[derive(Clone, Copy, Debug, PartialEq, Eq, Structural)]
pub struct KeyCounts {
    pk_registry: u8,
    pk_local: u8,
    sk_local: u8,
}

impl KeyCounts {
    /// The three counts.
    pub closed spec fn counts(self) -> (u8, u8, u8) {
        (self.pk_registry, self.pk_local, self.sk_local)
    }

    /// The counts of public keys in the registry, of local public keys and
    /// of local secret keys.
    pub fn new(pk_registry: u8, pk_local: u8, sk_local: u8) -> (counts: KeyCounts)
        ensures
            counts.counts() == (pk_registry, pk_local, sk_local),
    {
        KeyCounts { pk_registry, pk_local, sk_local }
    }

    /// Number of public keys in the registry.
    pub fn get_pk_registry(&self) -> (n: u8)
        ensures
            n == self.counts().0,
    {
        self.pk_registry
    }

    /// Number of public keys in the local public key store.
    pub fn get_pk_local(&self) -> (n: u8)
        ensures
            n == self.counts().1,
    {
        self.pk_local
    }

    /// Number of secret keys in the local secret key store.
    pub fn get_sk_local(&self) -> (n: u8)
        ensures
            n == self.counts().2,
    {
        self.sk_local
    }
}

/// The value that each key count gauge is set to, in the order in which the
/// gauges are set: local public keys, public keys in the registry, local
/// secret keys.
pub fn key_count_values(key_counts: &KeyCounts) -> (values: Vec<(KeyType, i64)>)
    ensures
        values@ == seq![
            (KeyType::PublicLocal, key_counts.counts().1 as i64),
            (KeyType::PublicRegistry, key_counts.counts().0 as i64),
            (KeyType::SecretSKS, key_counts.counts().2 as i64),
        ],
{
    let mut values: Vec<(KeyType, i64)> = Vec::new();
    values.push((KeyType::PublicLocal, key_counts.get_pk_local() as i64));
    values.push((KeyType::PublicRegistry, key_counts.get_pk_registry() as i64));
    values.push((KeyType::SecretSKS, key_counts.get_sk_local() as i64));
    assert(values@ =~= seq![
        (KeyType::PublicLocal, key_counts.counts().1 as i64),
        (KeyType::PublicRegistry, key_counts.counts().0 as i64),
        (KeyType::SecretSKS, key_counts.counts().2 as i64),
    ]);
    values
}

} // verus!
