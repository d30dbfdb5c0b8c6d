use crate::safe_read::{
    decoded, lemma_suffix_of_suffix, lemma_take_byte_leaves_suffix,
    lemma_take_leaves_suffix, refused, take_byte, take_bytes, DecodeError, Decoded, SafeRead,
};
use crate::spec::serialise::{
    be32, be32_value, byte_signed, field_encoding, field_text, fits_field, i32_from_be_bytes,
    i32_to_be_bytes, i8_from_byte, i8_to_byte, lemma_be32_round_trip, lemma_empty_text_fits,
    lemma_field_round_trip,
    lemma_cut, lemma_cut_tagged, lemma_field_text_fits, lemma_signed_byte_round_trip, lemma_signed_word_round_trip,
    lemma_take_block, lemma_take_tag, read_field, signed_byte, signed_word, text_fits_field,
    word_signed, write_field, Deserialise, RoundTrip, Serialise,
};
use embedded_svc::wifi::Capability;
use enumset::EnumSet;
use vstd::prelude::*;
use vstd::slice::slice_to_vec;

verus! {

/// The width of a network identifier's field.
pub const SSID_WIDTH: usize = 32;

/// The width of a network secret's field.
pub const SECRET_WIDTH: usize = 64;

/// How a station proves itself to a network.
#[derive(Debug, Clone, Copy, PartialEq, Eq, Structural)]
pub enum AuthMethod {
    /// No authentication: an open network.
    Open,
    WEP,
    WPA,
    WPA2Personal,
    WPAWPA2Personal,
    WPA2Enterprise,
    WPA3Personal,
    WPA2WPA3Personal,
    WAPIPersonal,
}

/// The code of an auth method in a configuration record.
pub open spec fn auth_code(method: AuthMethod) -> u8 {
    match method {
        AuthMethod::Open => 0,
        AuthMethod::WEP => 1,
        AuthMethod::WPA => 2,
        AuthMethod::WPA2Personal => 3,
        AuthMethod::WPAWPA2Personal => 4,
        AuthMethod::WPA2Enterprise => 5,
        AuthMethod::WPA3Personal => 6,
        AuthMethod::WPA2WPA3Personal => 7,
        AuthMethod::WAPIPersonal => 8,
    }
}

/// The auth method that a code stands for; a code that stands for none
/// gives `AuthMethod::Open`.
pub open spec fn auth_of_code(code: u8) -> AuthMethod {
    if code == 1 {
        AuthMethod::WEP
    } else if code == 2 {
        AuthMethod::WPA
    } else if code == 3 {
        AuthMethod::WPA2Personal
    } else if code == 4 {
        AuthMethod::WPAWPA2Personal
    } else if code == 5 {
        AuthMethod::WPA2Enterprise
    } else if code == 6 {
        AuthMethod::WPA3Personal
    } else if code == 7 {
        AuthMethod::WPA2WPA3Personal
    } else if code == 8 {
        AuthMethod::WAPIPersonal
    } else {
        AuthMethod::Open
    }
}

impl AuthMethod {
    /// The method's code in a configuration record.
    pub fn code(self) -> (code: u8)
        ensures
            code == auth_code(self),
            auth_of_code(code) == self,
    {
        match self {
            AuthMethod::Open => 0,
            AuthMethod::WEP => 1,
            AuthMethod::WPA => 2,
            AuthMethod::WPA2Personal => 3,
            AuthMethod::WPAWPA2Personal => 4,
            AuthMethod::WPA2Enterprise => 5,
            AuthMethod::WPA3Personal => 6,
            AuthMethod::WPA2WPA3Personal => 7,
            AuthMethod::WAPIPersonal => 8,
        }
    }

    /// The method that `code` stands for, `AuthMethod::Open` where it stands
    /// for none.
    pub fn from_code(code: u8) -> (method: AuthMethod)
        ensures
            method == auth_of_code(code),
    {
        match code {
            1 => AuthMethod::WEP,
            2 => AuthMethod::WPA,
            3 => AuthMethod::WPA2Personal,
            4 => AuthMethod::WPAWPA2Personal,
            5 => AuthMethod::WPA2Enterprise,
            6 => AuthMethod::WPA3Personal,
            7 => AuthMethod::WPA2WPA3Personal,
            8 => AuthMethod::WAPIPersonal,
            _ => AuthMethod::Open,
        }
    }
}

/// The credentials with which the radio joins a network.
#[derive(Debug, Clone, PartialEq, Eq)]
pub struct ClientConfiguration {
    pub ssid: String,
    pub password: String,
    pub auth_method: AuthMethod,
}

/// `ClientConfiguration` as the frame model has it.
pub ghost struct ClientConfigurationView {
    pub ssid: Seq<char>,
    pub password: Seq<char>,
    pub auth_method: AuthMethod,
}

/// The configuration that stands in for a record whose texts cannot be
/// read: no identifier, no secret, WPA2 personal.
pub open spec fn fallback_configuration() -> ClientConfigurationView {
    ClientConfigurationView {
        ssid: Seq::empty(),
        password: Seq::empty(),
        auth_method: AuthMethod::WPA2Personal,
    }
}

impl DeepView for ClientConfiguration {
    type V = ClientConfigurationView;

    open spec fn deep_view(&self) -> ClientConfigurationView {
        ClientConfigurationView {
            ssid: self.ssid@,
            password: self.password@,
            auth_method: self.auth_method,
        }
    }
}

impl View for ClientConfiguration {
    type V = ClientConfigurationView;

    open spec fn view(&self) -> ClientConfigurationView {
        self.deep_view()
    }
}

impl Default for ClientConfiguration {
    fn default() -> (config: Self)
        ensures
            config@ == fallback_configuration(),
    {
        ClientConfiguration {
            ssid: String::new(),
            password: String::new(),
            auth_method: AuthMethod::WPA2Personal,
        }
    }
}

/// A configuration travels as a record of fixed width: the identifier in
/// 32 bytes, the secret in 64, both zero-padded, and the auth method's code.
impl Serialise for ClientConfiguration {
    open spec fn encodable(&self) -> bool {
        fits_field(self.ssid@, SSID_WIDTH as nat) && fits_field(
            self.password@,
            SECRET_WIDTH as nat,
        )
    }

    open spec fn encoding(&self) -> Seq<u8> {
        field_encoding(self.ssid@, SSID_WIDTH as nat) + field_encoding(
            self.password@,
            SECRET_WIDTH as nat,
        ) + seq![auth_code(self.auth_method)]
    }

    fn to_bytes(self) -> (out: Vec<u8>) {
        let mut out: Vec<u8> = Vec::new();
        write_field::<SSID_WIDTH>(&mut out, self.ssid.as_str());
        write_field::<SECRET_WIDTH>(&mut out, self.password.as_str());
        out.push(self.auth_method.code());
        assert(out@ =~= self.encoding());
        out
    }
}

impl Deserialise for ClientConfiguration {
    #[verifier::opaque]
    open spec fn decoding(bytes: Seq<u8>) -> Decoded<ClientConfigurationView> {
        let ssid = take_bytes(bytes, SSID_WIDTH as nat);
        match ssid.result {
            Err(error) => refused(error, ssid.rest),
            Ok(ssid_field) => {
                let password = take_bytes(ssid.rest, SECRET_WIDTH as nat);
                match password.result {
                    Err(error) => refused(error, password.rest),
                    Ok(password_field) => {
                        let auth = take_byte(password.rest);
                        match auth.result {
                            Err(error) => refused(error, auth.rest),
                            Ok(code) => decoded(
                                match (field_text(ssid_field), field_text(password_field)) {
                                    (Some(ssid_text), Some(password_text)) => ClientConfigurationView {
                                        ssid: ssid_text,
                                        password: password_text,
                                        auth_method: auth_of_code(code),
                                    },
                                    _ => fallback_configuration(),
                                },
                                auth.rest,
                            ),
                        }
                    },
                }
            },
        }
    }

    proof fn lemma_leaves_suffix(bytes: Seq<u8>) {
        reveal(<ClientConfiguration as Deserialise>::decoding);
        let ssid = take_bytes(bytes, SSID_WIDTH as nat);
        lemma_take_leaves_suffix(bytes, SSID_WIDTH as nat);
        if ssid.result.is_ok() {
            let password = take_bytes(ssid.rest, SECRET_WIDTH as nat);
            lemma_take_leaves_suffix(ssid.rest, SECRET_WIDTH as nat);
            lemma_suffix_of_suffix(password.rest, ssid.rest, bytes);
            if password.result.is_ok() {
                lemma_take_byte_leaves_suffix(password.rest);
                lemma_suffix_of_suffix(take_byte(password.rest).rest, password.rest, bytes);
            }
        }
    }

    fn from_bytes<R: SafeRead>(src: &mut R) -> (res: Result<Self, DecodeError>)
        ensures
            res matches Ok(config) ==> config.encodable(),
    {
        proof {
            reveal(<ClientConfiguration as Deserialise>::decoding);
        }
        let ssid_field = match src.try_read::<SSID_WIDTH>() {
            Ok(field) => field,
            Err(error) => { return Err(error); },
        };
        let password_field = match src.try_read::<SECRET_WIDTH>() {
            Ok(field) => field,
            Err(error) => { return Err(error); },
        };
        let code = match src.try_next() {
            Ok(code) => code,
            Err(error) => { return Err(error); },
        };
        proof {
            lemma_field_text_fits(ssid_field@);
            lemma_field_text_fits(password_field@);
            lemma_empty_text_fits(SSID_WIDTH as nat);
            lemma_empty_text_fits(SECRET_WIDTH as nat);
        }
        let ssid = match read_field::<SSID_WIDTH>(&ssid_field) {
            Some(ssid) => ssid,
            None => { return Ok(ClientConfiguration::default()); },
        };
        let password = match read_field::<SECRET_WIDTH>(&password_field) {
            Some(password) => password,
            None => { return Ok(ClientConfiguration::default()); },
        };
        Ok(ClientConfiguration { ssid, password, auth_method: AuthMethod::from_code(code) })
    }
}

impl RoundTrip for ClientConfiguration {
    proof fn lemma_round_trip(&self, tail: Seq<u8>) {
        reveal(<ClientConfiguration as Deserialise>::decoding);
        let ssid = field_encoding(self.ssid@, SSID_WIDTH as nat);
        let password = field_encoding(self.password@, SECRET_WIDTH as nat);
        let code = auth_code(self.auth_method);
        lemma_field_round_trip(self.ssid@, SSID_WIDTH as nat);
        lemma_field_round_trip(self.password@, SECRET_WIDTH as nat);
        assert(self.encoding() + tail =~= ssid + (password + (seq![code] + tail)));
        lemma_take_block(ssid, password + (seq![code] + tail));
        lemma_take_block(password, seq![code] + tail);
        lemma_take_tag(code, tail);
    }

    proof fn lemma_truncated(&self, cut: int) {
        reveal(<ClientConfiguration as Deserialise>::decoding);
        let ssid = field_encoding(self.ssid@, SSID_WIDTH as nat);
        let password = field_encoding(self.password@, SECRET_WIDTH as nat);
        let code = seq![auth_code(self.auth_method)];
        lemma_field_round_trip(self.ssid@, SSID_WIDTH as nat);
        lemma_field_round_trip(self.password@, SECRET_WIDTH as nat);
        assert(self.encoding() =~= ssid + (password + code));
        if cut >= 32 {
            lemma_cut(ssid, password + code, cut);
            lemma_take_block(ssid, (password + code).take(cut - 32));
            if cut >= 96 {
                lemma_cut(password, code, cut - 32);
                lemma_take_block(password, code.take(cut - 96));
            }
        }
    }

    proof fn lemma_frame_of_view(&self, other: &Self) {
    }
}

/// A configuration record whose auth code stands for no method is not
/// refused: where its texts can be read it decodes to them and to no
/// authentication, and else to the fallback configuration.
pub proof fn lemma_unknown_auth_code_is_open(
    ssid: Seq<u8>,
    password: Seq<u8>,
    code: u8,
    tail: Seq<u8>,
)
    requires
        ssid.len() == SSID_WIDTH,
        password.len() == SECRET_WIDTH,
        code > 8,
    ensures
        ClientConfiguration::decoding(ssid + password + seq![code] + tail) == decoded(
            if field_text(ssid).is_some() && field_text(password).is_some() {
                ClientConfigurationView {
                    ssid: field_text(ssid).unwrap(),
                    password: field_text(password).unwrap(),
                    auth_method: AuthMethod::Open,
                }
            } else {
                fallback_configuration()
            },
            tail,
        ),
{
    reveal(<ClientConfiguration as Deserialise>::decoding);
    assert(ssid + password + seq![code] + tail =~= ssid + (password + (seq![code] + tail)));
    lemma_take_block(ssid, password + (seq![code] + tail));
    lemma_take_block(password, seq![code] + tail);
    lemma_take_tag(code, tail);
}

/// What a scan tells of one network.
#[derive(Debug, Clone, PartialEq, Eq)]
pub struct AccessPointInfo {
    pub ssid: String,
    pub bssid: [u8; 6],
    pub channel: u8,
    pub signal_strength: i8,
}

/// `AccessPointInfo` as the frame model has it.
pub ghost struct AccessPointInfoView {
    pub ssid: Seq<char>,
    pub bssid: Seq<u8>,
    pub channel: u8,
    pub signal_strength: i8,
}

impl DeepView for AccessPointInfo {
    type V = AccessPointInfoView;

    open spec fn deep_view(&self) -> AccessPointInfoView {
        AccessPointInfoView {
            ssid: self.ssid@,
            bssid: self.bssid@,
            channel: self.channel,
            signal_strength: self.signal_strength,
        }
    }
}

impl View for AccessPointInfo {
    type V = AccessPointInfoView;

    open spec fn view(&self) -> AccessPointInfoView {
        self.deep_view()
    }
}

impl AccessPointInfo {
    /// Whether the record's identifier fits its field.
    pub fn fits_frame(&self) -> (fits: bool)
        ensures
            fits == self.encodable(),
    {
        text_fits_field::<SSID_WIDTH>(self.ssid.as_str())
    }
}

/// A network record travels in 40 bytes: the identifier in 32, zero-padded,
/// the address in 6, the channel, and the signal strength in two's
/// complement.
impl Serialise for AccessPointInfo {
    open spec fn encodable(&self) -> bool {
        fits_field(self.ssid@, SSID_WIDTH as nat)
    }

    open spec fn encoding(&self) -> Seq<u8> {
        field_encoding(self.ssid@, SSID_WIDTH as nat) + self.bssid@ + seq![
            self.channel,
            signed_byte(self.signal_strength),
        ]
    }

    fn to_bytes(self) -> (out: Vec<u8>) {
        let mut out: Vec<u8> = Vec::new();
        write_field::<SSID_WIDTH>(&mut out, self.ssid.as_str());
        let mut address = slice_to_vec(self.bssid.as_slice());
        out.append(&mut address);
        out.push(self.channel);
        out.push(i8_to_byte(self.signal_strength));
        assert(out@ =~= self.encoding());
        out
    }
}

impl Deserialise for AccessPointInfo {
    #[verifier::opaque]
    open spec fn decoding(bytes: Seq<u8>) -> Decoded<AccessPointInfoView> {
        let ssid = take_bytes(bytes, SSID_WIDTH as nat);
        match ssid.result {
            Err(error) => refused(error, ssid.rest),
            Ok(ssid_field) => {
                let bssid = take_bytes(ssid.rest, 6);
                match bssid.result {
                    Err(error) => refused(error, bssid.rest),
                    Ok(address) => {
                        let channel = take_byte(bssid.rest);
                        match channel.result {
                            Err(error) => refused(error, channel.rest),
                            Ok(channel_byte) => {
                                let signal = take_byte(channel.rest);
                                match signal.result {
                                    Err(error) => refused(error, signal.rest),
                                    Ok(signal_byte) => match field_text(ssid_field) {
                                        Some(ssid_text) => decoded(
                                            AccessPointInfoView {
                                                ssid: ssid_text,
                                                bssid: address,
                                                channel: channel_byte,
                                                signal_strength: byte_signed(signal_byte),
                                            },
                                            signal.rest,
                                        ),
                                        None => refused(DecodeError::InvalidUtf8, signal.rest),
                                    },
                                }
                            },
                        }
                    },
                }
            },
        }
    }

    proof fn lemma_leaves_suffix(bytes: Seq<u8>) {
        reveal(<AccessPointInfo as Deserialise>::decoding);
        let ssid = take_bytes(bytes, SSID_WIDTH as nat);
        lemma_take_leaves_suffix(bytes, SSID_WIDTH as nat);
        if ssid.result.is_ok() {
            let bssid = take_bytes(ssid.rest, 6);
            lemma_take_leaves_suffix(ssid.rest, 6);
            lemma_suffix_of_suffix(bssid.rest, ssid.rest, bytes);
            if bssid.result.is_ok() {
                let channel = take_byte(bssid.rest);
                lemma_take_byte_leaves_suffix(bssid.rest);
                lemma_suffix_of_suffix(channel.rest, bssid.rest, bytes);
                if channel.result.is_ok() {
                    lemma_take_byte_leaves_suffix(channel.rest);
                    lemma_suffix_of_suffix(take_byte(channel.rest).rest, channel.rest, bytes);
                }
            }
        }
    }

    fn from_bytes<R: SafeRead>(src: &mut R) -> (res: Result<Self, DecodeError>) {
        proof {
            reveal(<AccessPointInfo as Deserialise>::decoding);
        }
        let ssid_field = match src.try_read::<SSID_WIDTH>() {
            Ok(field) => field,
            Err(error) => { return Err(error); },
        };
        let bssid = match src.try_read::<6>() {
            Ok(bssid) => bssid,
            Err(error) => { return Err(error); },
        };
        let channel = match src.try_next() {
            Ok(channel) => channel,
            Err(error) => { return Err(error); },
        };
        let signal = match src.try_next() {
            Ok(signal) => signal,
            Err(error) => { return Err(error); },
        };
        match read_field::<SSID_WIDTH>(&ssid_field) {
            Some(ssid) => Ok(
                AccessPointInfo { ssid, bssid, channel, signal_strength: i8_from_byte(signal) },
            ),
            None => Err(DecodeError::InvalidUtf8),
        }
    }
}

impl RoundTrip for AccessPointInfo {
    proof fn lemma_round_trip(&self, tail: Seq<u8>) {
        reveal(<AccessPointInfo as Deserialise>::decoding);
        let ssid = field_encoding(self.ssid@, SSID_WIDTH as nat);
        let signal = signed_byte(self.signal_strength);
        lemma_field_round_trip(self.ssid@, SSID_WIDTH as nat);
        lemma_signed_byte_round_trip(self.signal_strength);
        assert(self.encoding() + tail =~= ssid + (self.bssid@ + (seq![self.channel] + (seq![signal]
            + tail))));
        lemma_take_block(ssid, self.bssid@ + (seq![self.channel] + (seq![signal] + tail)));
        lemma_take_block(self.bssid@, seq![self.channel] + (seq![signal] + tail));
        lemma_take_tag(self.channel, seq![signal] + tail);
        lemma_take_tag(signal, tail);
    }

    proof fn lemma_truncated(&self, cut: int) {
        reveal(<AccessPointInfo as Deserialise>::decoding);
        let ssid = field_encoding(self.ssid@, SSID_WIDTH as nat);
        let last = seq![self.channel, signed_byte(self.signal_strength)];
        lemma_field_round_trip(self.ssid@, SSID_WIDTH as nat);
        assert(self.encoding() =~= ssid + (self.bssid@ + last));
        if cut >= 32 {
            lemma_cut(ssid, self.bssid@ + last, cut);
            lemma_take_block(ssid, (self.bssid@ + last).take(cut - 32));
            if cut >= 38 {
                lemma_cut(self.bssid@, last, cut - 32);
                lemma_take_block(self.bssid@, last.take(cut - 38));
                if cut >= 39 {
                    assert(last.take(cut - 38) =~= seq![self.channel] + Seq::<u8>::empty());
                    lemma_take_tag(self.channel, Seq::empty());
                }
            }
        }
    }

    proof fn lemma_frame_of_view(&self, other: &Self) {
    }
}

/// Whether a list of network records fits a frame: it has at most 255
/// records and every record's identifier fits its field.
pub fn records_fit(list: &Vec<AccessPointInfo>) -> (fits: bool)
    ensures
        fits == list.encodable(),
{
    if list.len() > 255 {
        return false;
    }
    let mut i: usize = 0;
    while i < list.len()
        invariant
            i <= list@.len(),
            forall|k: int| 0 <= k < i ==> (#[trigger] list@[k]).encodable(),
        decreases list@.len() - i,
    {
        if !list[i].fits_frame() {
            assert(!list@[i as int].encodable());
            return false;
        }
        i += 1;
    }
    true
}

/// What the radio can do: a set of `embedded_svc` capabilities, kept as the
/// `enumset` set that the radio layer hands out.
#[verifier::external_body]
#[derive(Debug)]
pub struct CapabilitySet {
    set: EnumSet<Capability>,
}

/// The members of a capability set, each by its place in the enumeration:
/// `0` client, `1` access point, `2` both at once.
pub uninterp spec fn capability_members(caps: CapabilitySet) -> Set<u8>;

/// The set of places whose bits are set in the low three bits of `bits`.
pub open spec fn mask_members(bits: u8) -> Set<u8> {
    Set::new(
        |place: u8|
            (place == 0 && bits % 2 == 1) || (place == 1 && bits / 2 % 2 == 1) || (place == 2
                && bits / 4 % 2 == 1),
    )
}

/// The byte that has a bit set for each place in `members`.
pub open spec fn capability_mask(members: Set<u8>) -> u8 {
    ((if members.contains(0) {
        1int
    } else {
        0int
    }) + (if members.contains(1) {
        2int
    } else {
        0int
    }) + (if members.contains(2) {
        4int
    } else {
        0int
    })) as u8
}

/// Whether a set of places names capabilities only: every place is one of
/// the three.
pub open spec fn known_capabilities(members: Set<u8>) -> bool {
    forall|place: u8| members.contains(place) ==> place < 3
}

/// `EnumSet::as_u8` of enumset, on a set of capabilities: the byte whose bit
/// at each member's place is set, and no other; the places are below 3.
#[verifier::external_body]
fn capability_bits(caps: &CapabilitySet) -> (bits: u8)
    ensures
        bits < 8,
        mask_members(bits) == capability_members(*caps),
{
    caps.set.as_u8()
}

/// `EnumSet::try_from_u8` of enumset, for capabilities: the set whose
/// members are the places of the bits set in `bits`, or nothing where a bit
/// is set at a place that names no capability.
#[verifier::external_body]
fn capabilities_from_bits(bits: u8) -> (caps: Option<CapabilitySet>)
    ensures
        caps.is_some() == (bits < 8),
        caps.is_some() ==> capability_members(caps.unwrap()) == mask_members(bits),
{
    EnumSet::try_from_u8(bits).map(|set| CapabilitySet { set })
}

/// A byte below 8 is the mask of the places of its bits, and those places
/// name capabilities only.
pub proof fn lemma_mask_round_trip(bits: u8)
    requires
        bits < 8,
    ensures
        capability_mask(mask_members(bits)) == bits,
        known_capabilities(mask_members(bits)),
{
}

/// A set of capabilities is the set of places of the bits of its mask.
pub proof fn lemma_members_round_trip(members: Set<u8>)
    requires
        known_capabilities(members),
    ensures
        capability_mask(members) < 8,
        mask_members(capability_mask(members)) == members,
{
    assert(mask_members(capability_mask(members)) =~= members);
}

impl CapabilitySet {
    /// The set whose members are the places of the bits set in `bits`, or
    /// nothing where `bits` is 8 or more.
    pub fn from_bits(bits: u8) -> (caps: Option<CapabilitySet>)
        ensures
            caps.is_some() == (bits < 8),
            caps matches Some(set) ==> capability_members(set) == mask_members(bits)
                && known_capabilities(capability_members(set)),
    {
        proof {
            if bits < 8 {
                lemma_mask_round_trip(bits);
            }
        }
        capabilities_from_bits(bits)
    }

    /// The byte that has a bit set for each member of the set.
    pub fn bits(&self) -> (bits: u8)
        ensures
            bits == capability_mask(capability_members(*self)),
            bits < 8,
            known_capabilities(capability_members(*self)),
    {
        let bits = capability_bits(self);
        proof {
            lemma_mask_round_trip(bits);
        }
        bits
    }
}

/// What the controller can ask of the radio.
#[derive(Debug, Clone, PartialEq, Eq)]
pub enum WifiActions {
    /// Whether the radio is started.
    IsStarted,
    /// Whether the radio is connected to a network.
    IsConnected,
    /// What the radio can do.
    GetCapabilities,
    /// Start the radio.
    Start,
    /// Stop the radio.
    Stop,
    /// Look for networks.
    Scan,
    /// Join the configured network.
    Connect,
    /// Leave the network.
    Disconnect,
    /// Set the network to join.
    SetConfig(ClientConfiguration),
}

/// `WifiActions` as the frame model has it.
pub ghost enum WifiActionsView {
    IsStarted,
    IsConnected,
    GetCapabilities,
    Start,
    Stop,
    Scan,
    Connect,
    Disconnect,
    SetConfig(ClientConfigurationView),
}

impl DeepView for WifiActions {
    type V = WifiActionsView;

    open spec fn deep_view(&self) -> WifiActionsView {
        match self {
            WifiActions::IsStarted => WifiActionsView::IsStarted,
            WifiActions::IsConnected => WifiActionsView::IsConnected,
            WifiActions::GetCapabilities => WifiActionsView::GetCapabilities,
            WifiActions::Start => WifiActionsView::Start,
            WifiActions::Stop => WifiActionsView::Stop,
            WifiActions::Scan => WifiActionsView::Scan,
            WifiActions::Connect => WifiActionsView::Connect,
            WifiActions::Disconnect => WifiActionsView::Disconnect,
            WifiActions::SetConfig(config) => WifiActionsView::SetConfig(config.deep_view()),
        }
    }
}

impl View for WifiActions {
    type V = WifiActionsView;

    open spec fn view(&self) -> WifiActionsView {
        self.deep_view()
    }
}

/// The tag of a radio action in a request frame.
pub open spec fn action_tag(action: WifiActionsView) -> u8 {
    match action {
        WifiActionsView::IsStarted => 0,
        WifiActionsView::IsConnected => 1,
        WifiActionsView::GetCapabilities => 2,
        WifiActionsView::Start => 3,
        WifiActionsView::Stop => 4,
        WifiActionsView::Scan => 5,
        WifiActionsView::Connect => 6,
        WifiActionsView::Disconnect => 7,
        WifiActionsView::SetConfig(_) => 8,
    }
}

/// The radio action without a payload that a tag below 8 stands for.
pub open spec fn plain_action(tag: u8) -> WifiActionsView
    recommends
        tag < 8,
{
    if tag == 0 {
        WifiActionsView::IsStarted
    } else if tag == 1 {
        WifiActionsView::IsConnected
    } else if tag == 2 {
        WifiActionsView::GetCapabilities
    } else if tag == 3 {
        WifiActionsView::Start
    } else if tag == 4 {
        WifiActionsView::Stop
    } else if tag == 5 {
        WifiActionsView::Scan
    } else if tag == 6 {
        WifiActionsView::Connect
    } else {
        WifiActionsView::Disconnect
    }
}

/// A radio action travels as its tag; setting the configuration carries the
/// configuration record behind it.
impl Serialise for WifiActions {
    open spec fn encodable(&self) -> bool {
        match self {
            WifiActions::SetConfig(config) => config.encodable(),
            _ => true,
        }
    }

    open spec fn encoding(&self) -> Seq<u8> {
        match self {
            WifiActions::SetConfig(config) => seq![action_tag(self.deep_view())]
                + config.encoding(),
            _ => seq![action_tag(self.deep_view())],
        }
    }

    fn to_bytes(self) -> (out: Vec<u8>) {
        let mut out: Vec<u8> = Vec::new();
        match self {
            WifiActions::IsStarted => {
                out.push(0);
            },
            WifiActions::IsConnected => {
                out.push(1);
            },
            WifiActions::GetCapabilities => {
                out.push(2);
            },
            WifiActions::Start => {
                out.push(3);
            },
            WifiActions::Stop => {
                out.push(4);
            },
            WifiActions::Scan => {
                out.push(5);
            },
            WifiActions::Connect => {
                out.push(6);
            },
            WifiActions::Disconnect => {
                out.push(7);
            },
            WifiActions::SetConfig(config) => {
                out.push(8);
                let mut record = config.to_bytes();
                out.append(&mut record);
            },
        }
        out
    }
}

impl Deserialise for WifiActions {
    #[verifier::opaque]
    open spec fn decoding(bytes: Seq<u8>) -> Decoded<WifiActionsView> {
        let tag = take_byte(bytes);
        match tag.result {
            Err(error) => refused(error, tag.rest),
            Ok(id) => if id < 8 {
                decoded(plain_action(id), tag.rest)
            } else if id == 8 {
                let record = ClientConfiguration::decoding(tag.rest);
                match record.result {
                    Err(error) => refused(error, record.rest),
                    Ok(config) => decoded(WifiActionsView::SetConfig(config), record.rest),
                }
            } else {
                refused(DecodeError::UnknownTag { tag: id }, tag.rest)
            },
        }
    }

    proof fn lemma_leaves_suffix(bytes: Seq<u8>) {
        reveal(<WifiActions as Deserialise>::decoding);
        let tag = take_byte(bytes);
        lemma_take_byte_leaves_suffix(bytes);
        if tag.result.is_ok() {
            ClientConfiguration::lemma_leaves_suffix(tag.rest);
            lemma_suffix_of_suffix(ClientConfiguration::decoding(tag.rest).rest, tag.rest, bytes);
        }
    }

    fn from_bytes<R: SafeRead>(src: &mut R) -> (res: Result<Self, DecodeError>) {
        proof {
            reveal(<WifiActions as Deserialise>::decoding);
        }
        let id = match src.try_next() {
            Ok(id) => id,
            Err(error) => { return Err(error); },
        };
        match id {
            0 => Ok(WifiActions::IsStarted),
            1 => Ok(WifiActions::IsConnected),
            2 => Ok(WifiActions::GetCapabilities),
            3 => Ok(WifiActions::Start),
            4 => Ok(WifiActions::Stop),
            5 => Ok(WifiActions::Scan),
            6 => Ok(WifiActions::Connect),
            7 => Ok(WifiActions::Disconnect),
            8 => match ClientConfiguration::from_bytes(src) {
                Ok(config) => Ok(WifiActions::SetConfig(config)),
                Err(error) => Err(error),
            },
            _ => Err(DecodeError::UnknownTag { tag: id }),
        }
    }
}

impl RoundTrip for WifiActions {
    proof fn lemma_round_trip(&self, tail: Seq<u8>) {
        reveal(<WifiActions as Deserialise>::decoding);
        let tag = action_tag(self.deep_view());
        match self {
            WifiActions::SetConfig(config) => {
                assert(self.encoding() + tail =~= seq![tag] + (config.encoding() + tail));
                lemma_take_tag(tag, config.encoding() + tail);
                config.lemma_round_trip(tail);
            },
            _ => {
                lemma_take_tag(tag, tail);
            },
        }
    }

    proof fn lemma_truncated(&self, cut: int) {
        reveal(<WifiActions as Deserialise>::decoding);
        let tag = action_tag(self.deep_view());
        match self {
            WifiActions::SetConfig(config) => {
                lemma_cut_tagged(tag, config.encoding(), cut);
                if cut > 0 {
                    config.lemma_truncated(cut - 1);
                }
            },
            _ => {},
        }
    }

    proof fn lemma_frame_of_view(&self, other: &Self) {
        match (self, other) {
            (WifiActions::SetConfig(mine), WifiActions::SetConfig(theirs)) => {
                mine.lemma_frame_of_view(theirs);
            },
            _ => {},
        }
    }
}

/// What the controller can ask of the network client.
#[derive(Debug)]
pub enum HttpActions {
    Send,
}

/// What the radio answers.
#[derive(Debug)]
pub enum WifiResponse {
    /// The radio failed, with this code.
    Error(i32),
    IsStarted(bool),
    IsConnected(bool),
    AccessPoints(Vec<AccessPointInfo>),
    Capabilities(CapabilitySet),
    Started,
    Stopped,
    Connected,
    Disconnected,
    Configured,
}

/// `WifiResponse` as the frame model has it.
pub ghost enum WifiResponseView {
    Error(i32),
    IsStarted(bool),
    IsConnected(bool),
    AccessPoints(Seq<AccessPointInfoView>),
    Capabilities(Set<u8>),
    Started,
    Stopped,
    Connected,
    Disconnected,
    Configured,
}

impl DeepView for WifiResponse {
    type V = WifiResponseView;

    open spec fn deep_view(&self) -> WifiResponseView {
        match self {
            WifiResponse::Error(code) => WifiResponseView::Error(*code),
            WifiResponse::IsStarted(flag) => WifiResponseView::IsStarted(*flag),
            WifiResponse::IsConnected(flag) => WifiResponseView::IsConnected(*flag),
            WifiResponse::AccessPoints(list) => WifiResponseView::AccessPoints(list.deep_view()),
            WifiResponse::Capabilities(caps) => WifiResponseView::Capabilities(
                capability_members(*caps),
            ),
            WifiResponse::Started => WifiResponseView::Started,
            WifiResponse::Stopped => WifiResponseView::Stopped,
            WifiResponse::Connected => WifiResponseView::Connected,
            WifiResponse::Disconnected => WifiResponseView::Disconnected,
            WifiResponse::Configured => WifiResponseView::Configured,
        }
    }
}

impl View for WifiResponse {
    type V = WifiResponseView;

    open spec fn view(&self) -> WifiResponseView {
        self.deep_view()
    }
}

/// The tag of a radio response in a response frame.
pub open spec fn response_tag(response: WifiResponseView) -> u8 {
    match response {
        WifiResponseView::Error(_) => 0,
        WifiResponseView::IsStarted(_) => 1,
        WifiResponseView::IsConnected(_) => 2,
        WifiResponseView::AccessPoints(_) => 3,
        WifiResponseView::Capabilities(_) => 4,
        WifiResponseView::Started => 5,
        WifiResponseView::Stopped => 6,
        WifiResponseView::Connected => 7,
        WifiResponseView::Disconnected => 8,
        WifiResponseView::Configured => 9,
    }
}

/// The acknowledgement that a tag from 5 to 9 stands for.
pub open spec fn plain_response(tag: u8) -> WifiResponseView
    recommends
        5 <= tag <= 9,
{
    if tag == 5 {
        WifiResponseView::Started
    } else if tag == 6 {
        WifiResponseView::Stopped
    } else if tag == 7 {
        WifiResponseView::Connected
    } else if tag == 8 {
        WifiResponseView::Disconnected
    } else {
        WifiResponseView::Configured
    }
}

/// The byte of a flag: `1` for yes, `0` for no.
pub open spec fn flag_byte(flag: bool) -> u8 {
    if flag {
        1
    } else {
        0
    }
}

/// Decoding a flag: `1` is yes, `0` is no, and no other byte is a flag.
pub open spec fn flag_decoding(bytes: Seq<u8>) -> Decoded<bool> {
    let byte = take_byte(bytes);
    match byte.result {
        Err(error) => refused(error, byte.rest),
        Ok(value) => if value == 0 {
            decoded(false, byte.rest)
        } else if value == 1 {
            decoded(true, byte.rest)
        } else {
            refused(DecodeError::Malformed { byte: value }, byte.rest)
        },
    }
}

/// Reads a flag.
fn read_flag<R: SafeRead>(src: &mut R) -> (res: Result<bool, DecodeError>)
    ensures
        res == flag_decoding(old(src).remaining()).result,
        final(src).remaining() == flag_decoding(old(src).remaining()).rest,
{
    match src.try_next() {
        Ok(0) => Ok(false),
        Ok(1) => Ok(true),
        Ok(value) => Err(DecodeError::Malformed { byte: value }),
        Err(error) => Err(error),
    }
}

impl WifiResponse {
    /// The response that reports a failure of the radio.
    pub fn new_error(code: i32) -> (response: Self)
        ensures
            response == WifiResponse::Error(code),
    {
        WifiResponse::Error(code)
    }

    /// The response's tag in a frame.
    pub fn id(&self) -> (tag: u8)
        ensures
            tag == response_tag(self@),
    {
        match self {
            WifiResponse::Error(_) => 0,
            WifiResponse::IsStarted(_) => 1,
            WifiResponse::IsConnected(_) => 2,
            WifiResponse::AccessPoints(_) => 3,
            WifiResponse::Capabilities(_) => 4,
            WifiResponse::Started => 5,
            WifiResponse::Stopped => 6,
            WifiResponse::Connected => 7,
            WifiResponse::Disconnected => 8,
            WifiResponse::Configured => 9,
        }
    }

    /// Whether the response fits a frame: a list has at most 255 records
    /// and every record's identifier fits its field.
    pub fn fits_frame(&self) -> (fits: bool)
        ensures
            fits == self.encodable(),
    {
        match self {
            WifiResponse::AccessPoints(list) => records_fit(list),
            WifiResponse::Capabilities(caps) => caps.bits() < 8,
            _ => true,
        }
    }
}

/// A radio response travels as its tag and its payload: a failure's code in
/// four bytes, a flag in one, a list of network records, a capability byte,
/// or, for an acknowledgement, nothing.
impl Serialise for WifiResponse {
    open spec fn encodable(&self) -> bool {
        match self {
            WifiResponse::AccessPoints(list) => list.encodable(),
            WifiResponse::Capabilities(caps) => known_capabilities(capability_members(*caps)),
            _ => true,
        }
    }

    open spec fn encoding(&self) -> Seq<u8> {
        let tag = seq![response_tag(self.deep_view())];
        match self {
            WifiResponse::Error(code) => tag + be32(signed_word(*code)),
            WifiResponse::IsStarted(flag) | WifiResponse::IsConnected(flag) => tag + seq![
                flag_byte(*flag),
            ],
            WifiResponse::AccessPoints(list) => tag + list.encoding(),
            WifiResponse::Capabilities(caps) => tag + seq![
                capability_mask(capability_members(*caps)),
            ],
            _ => tag,
        }
    }

    fn to_bytes(self) -> (out: Vec<u8>) {
        let mut out: Vec<u8> = Vec::new();
        out.push(self.id());
        match self {
            WifiResponse::Error(code) => {
                let word = i32_to_be_bytes(code);
                let mut payload = slice_to_vec(word.as_slice());
                out.append(&mut payload);
            },
            WifiResponse::IsStarted(flag) | WifiResponse::IsConnected(flag) => {
                out.push(if flag { 1 } else { 0 });
            },
            WifiResponse::AccessPoints(list) => {
                let mut payload = list.to_bytes();
                out.append(&mut payload);
            },
            WifiResponse::Capabilities(caps) => {
                out.push(caps.bits());
            },
            _ => {},
        }
        assert(out@ =~= self.encoding());
        out
    }
}

impl Deserialise for WifiResponse {
    #[verifier::opaque]
    open spec fn decoding(bytes: Seq<u8>) -> Decoded<WifiResponseView> {
        let tag = take_byte(bytes);
        match tag.result {
            Err(error) => refused(error, tag.rest),
            Ok(id) => if id == 0 {
                let word = take_bytes(tag.rest, 4);
                match word.result {
                    Err(error) => refused(error, word.rest),
                    Ok(block) => decoded(
                        WifiResponseView::Error(word_signed(be32_value(block))),
                        word.rest,
                    ),
                }
            } else if id == 1 || id == 2 {
                let flag = flag_decoding(tag.rest);
                match flag.result {
                    Err(error) => refused(error, flag.rest),
                    Ok(value) => decoded(
                        if id == 1 {
                            WifiResponseView::IsStarted(value)
                        } else {
                            WifiResponseView::IsConnected(value)
                        },
                        flag.rest,
                    ),
                }
            } else if id == 3 {
                let list = Vec::<AccessPointInfo>::decoding(tag.rest);
                match list.result {
                    Err(error) => refused(error, list.rest),
                    Ok(records) => decoded(WifiResponseView::AccessPoints(records), list.rest),
                }
            } else if id == 4 {
                let mask = take_byte(tag.rest);
                match mask.result {
                    Err(error) => refused(error, mask.rest),
                    Ok(bits) => if bits < 8 {
                        decoded(WifiResponseView::Capabilities(mask_members(bits)), mask.rest)
                    } else {
                        refused(DecodeError::Malformed { byte: bits }, mask.rest)
                    },
                }
            } else if id <= 9 {
                decoded(plain_response(id), tag.rest)
            } else {
                refused(DecodeError::UnknownTag { tag: id }, tag.rest)
            },
        }
    }

    proof fn lemma_leaves_suffix(bytes: Seq<u8>) {
        reveal(<WifiResponse as Deserialise>::decoding);
        let tag = take_byte(bytes);
        lemma_take_byte_leaves_suffix(bytes);
        if tag.result.is_ok() {
            lemma_take_leaves_suffix(tag.rest, 4);
            lemma_suffix_of_suffix(take_bytes(tag.rest, 4).rest, tag.rest, bytes);
            lemma_take_byte_leaves_suffix(tag.rest);
            lemma_suffix_of_suffix(take_byte(tag.rest).rest, tag.rest, bytes);
            Vec::<AccessPointInfo>::lemma_leaves_suffix(tag.rest);
            lemma_suffix_of_suffix(
                Vec::<AccessPointInfo>::decoding(tag.rest).rest,
                tag.rest,
                bytes,
            );
        }
    }

    fn from_bytes<R: SafeRead>(src: &mut R) -> (res: Result<Self, DecodeError>) {
        proof {
            reveal(<WifiResponse as Deserialise>::decoding);
        }
        let id = match src.try_next() {
            Ok(id) => id,
            Err(error) => { return Err(error); },
        };
        match id {
            0 => match src.try_read::<4>() {
                Ok(word) => Ok(WifiResponse::Error(i32_from_be_bytes(word))),
                Err(error) => Err(error),
            },
            1 => match read_flag(src) {
                Ok(flag) => Ok(WifiResponse::IsStarted(flag)),
                Err(error) => Err(error),
            },
            2 => match read_flag(src) {
                Ok(flag) => Ok(WifiResponse::IsConnected(flag)),
                Err(error) => Err(error),
            },
            3 => match Vec::<AccessPointInfo>::from_bytes(src) {
                Ok(list) => Ok(WifiResponse::AccessPoints(list)),
                Err(error) => Err(error),
            },
            4 => {
                let bits = match src.try_next() {
                    Ok(bits) => bits,
                    Err(error) => { return Err(error); },
                };
                match CapabilitySet::from_bits(bits) {
                    Some(caps) => Ok(WifiResponse::Capabilities(caps)),
                    None => Err(DecodeError::Malformed { byte: bits }),
                }
            },
            5 => Ok(WifiResponse::Started),
            6 => Ok(WifiResponse::Stopped),
            7 => Ok(WifiResponse::Connected),
            8 => Ok(WifiResponse::Disconnected),
            9 => Ok(WifiResponse::Configured),
            _ => Err(DecodeError::UnknownTag { tag: id }),
        }
    }
}

impl RoundTrip for WifiResponse {
    proof fn lemma_round_trip(&self, tail: Seq<u8>) {
        reveal(<WifiResponse as Deserialise>::decoding);
        let tag = response_tag(self.deep_view());
        match self {
            WifiResponse::Error(code) => {
                let word = be32(signed_word(*code));
                lemma_be32_round_trip(signed_word(*code));
                lemma_signed_word_round_trip(*code);
                assert(self.encoding() + tail =~= seq![tag] + (word + tail));
                lemma_take_tag(tag, word + tail);
                lemma_take_block(word, tail);
            },
            WifiResponse::IsStarted(flag) | WifiResponse::IsConnected(flag) => {
                assert(self.encoding() + tail =~= seq![tag] + (seq![flag_byte(*flag)] + tail));
                lemma_take_tag(tag, seq![flag_byte(*flag)] + tail);
                lemma_take_tag(flag_byte(*flag), tail);
            },
            WifiResponse::AccessPoints(list) => {
                assert(self.encoding() + tail =~= seq![tag] + (list.encoding() + tail));
                lemma_take_tag(tag, list.encoding() + tail);
                list.lemma_round_trip(tail);
            },
            WifiResponse::Capabilities(caps) => {
                let bits = capability_mask(capability_members(*caps));
                lemma_members_round_trip(capability_members(*caps));
                assert(self.encoding() + tail =~= seq![tag] + (seq![bits] + tail));
                lemma_take_tag(tag, seq![bits] + tail);
                lemma_take_tag(bits, tail);
            },
            _ => {
                lemma_take_tag(tag, tail);
            },
        }
    }

    proof fn lemma_truncated(&self, cut: int) {
        reveal(<WifiResponse as Deserialise>::decoding);
        let tag = response_tag(self.deep_view());
        match self {
            WifiResponse::Error(code) => {
                let word = be32(signed_word(*code));
                lemma_be32_round_trip(signed_word(*code));
                lemma_cut_tagged(tag, word, cut);
            },
            WifiResponse::IsStarted(flag) | WifiResponse::IsConnected(flag) => {
                lemma_cut_tagged(tag, seq![flag_byte(*flag)], cut);
            },
            WifiResponse::AccessPoints(list) => {
                lemma_cut_tagged(tag, list.encoding(), cut);
                if cut > 0 {
                    list.lemma_truncated(cut - 1);
                }
            },
            WifiResponse::Capabilities(caps) => {
                lemma_cut_tagged(tag, seq![capability_mask(capability_members(*caps))], cut);
            },
            _ => {},
        }
    }

    proof fn lemma_frame_of_view(&self, other: &Self) {
        match (self, other) {
            (WifiResponse::AccessPoints(mine), WifiResponse::AccessPoints(theirs)) => {
                mine.lemma_frame_of_view(theirs);
            },
            _ => {},
        }
    }
}

/// What the radio hands back when an operation succeeds.
#[derive(Debug)]
pub enum WifiReply {
    /// The answer to a question.
    Flag(bool),
    /// The networks that a scan found.
    Networks(Vec<AccessPointInfo>),
    /// What the radio can do.
    Capabilities(CapabilitySet),
    /// The operation is done and has nothing to tell.
    Done,
}

/// Why the dispatcher cannot go on.
#[derive(Debug, Clone, Copy, PartialEq, Eq, Structural)]
pub enum ProtocolViolation {
    /// The operation's outcome is not of the kind that the catalog gives
    /// for it.
    UnexpectedReply,
    /// An outcome came while no operation was in flight.
    NothingInFlight,
    /// The response is larger than a frame can hold.
    OversizedResponse,
}

/// The catalog of radio operations: the response that answers `action`
/// when the radio hands back `reply`, where the reply is of the kind that
/// the action asks for.
pub open spec fn catalog_response(action: WifiActionsView, reply: WifiReply) -> Option<
    WifiResponse,
> {
    match (action, reply) {
        (WifiActionsView::IsStarted, WifiReply::Flag(flag)) => Some(WifiResponse::IsStarted(flag)),
        (WifiActionsView::IsConnected, WifiReply::Flag(flag)) => Some(
            WifiResponse::IsConnected(flag),
        ),
        (WifiActionsView::GetCapabilities, WifiReply::Capabilities(caps)) => Some(
            WifiResponse::Capabilities(caps),
        ),
        (WifiActionsView::Start, WifiReply::Done) => Some(WifiResponse::Started),
        (WifiActionsView::Stop, WifiReply::Done) => Some(WifiResponse::Stopped),
        (WifiActionsView::Scan, WifiReply::Networks(list)) => Some(
            WifiResponse::AccessPoints(list),
        ),
        (WifiActionsView::Connect, WifiReply::Done) => Some(WifiResponse::Connected),
        (WifiActionsView::Disconnect, WifiReply::Done) => Some(WifiResponse::Disconnected),
        (WifiActionsView::SetConfig(_), WifiReply::Done) => Some(WifiResponse::Configured),
        _ => None,
    }
}

/// The response that answers `action` when the radio's outcome is
/// `outcome`: a failure is answered with its code, whatever the action.
pub open spec fn catalog_outcome(action: WifiActionsView, outcome: Result<WifiReply, i32>) -> Option<
    WifiResponse,
> {
    match outcome {
        Err(code) => Some(WifiResponse::Error(code)),
        Ok(reply) => catalog_response(action, reply),
    }
}

impl WifiActions {
    /// Answers the action with the outcome that the radio had for it. An
    /// outcome of a kind that the catalog does not give for the action is
    /// a violation.
    pub fn run_on(&self, outcome: Result<WifiReply, i32>) -> (res: Result<
        WifiResponse,
        ProtocolViolation,
    >)
        ensures
            match catalog_outcome(self@, outcome) {
                Some(response) => res == Ok::<WifiResponse, ProtocolViolation>(response),
                None => res == Err::<WifiResponse, ProtocolViolation>(
                    ProtocolViolation::UnexpectedReply,
                ),
            },
    {
        let reply = match outcome {
            Ok(reply) => reply,
            Err(code) => { return Ok(WifiResponse::new_error(code)); },
        };
        match (self, reply) {
            (WifiActions::IsStarted, WifiReply::Flag(flag)) => Ok(WifiResponse::IsStarted(flag)),
            (WifiActions::IsConnected, WifiReply::Flag(flag)) => Ok(
                WifiResponse::IsConnected(flag),
            ),
            (WifiActions::GetCapabilities, WifiReply::Capabilities(caps)) => Ok(
                WifiResponse::Capabilities(caps),
            ),
            (WifiActions::Start, WifiReply::Done) => Ok(WifiResponse::Started),
            (WifiActions::Stop, WifiReply::Done) => Ok(WifiResponse::Stopped),
            (WifiActions::Scan, WifiReply::Networks(list)) => Ok(WifiResponse::AccessPoints(list)),
            (WifiActions::Connect, WifiReply::Done) => Ok(WifiResponse::Connected),
            (WifiActions::Disconnect, WifiReply::Done) => Ok(WifiResponse::Disconnected),
            (WifiActions::SetConfig(_), WifiReply::Done) => Ok(WifiResponse::Configured),
            _ => Err(ProtocolViolation::UnexpectedReply),
        }
    }
}

/// Turning the result of a radio call into a response.
pub trait ConvertToWifiResponse<T>: Sized {
    /// What the call handed back, where it succeeded.
    spec fn payload(&self) -> Option<T>;

    /// The code with which the call failed, where it failed.
    spec fn failure(&self) -> Option<i32>;

    /// The response that `f` makes of the call's payload, or the failure's
    /// response.
    fn into_resp<F: Fn(T) -> WifiResponse>(self, f: F) -> (response: WifiResponse)
        requires
            self.payload().is_some() ==> f.requires((self.payload().unwrap(),)),
        ensures
            self.payload().is_some() ==> f.ensures((self.payload().unwrap(),), response),
            self.payload().is_none() ==> self.failure().is_some() && response
                == WifiResponse::Error(self.failure().unwrap()),
    ;

    /// The response `or` where the call succeeded, or the failure's
    /// response.
    fn into_resp_or(self, or: WifiResponse) -> (response: WifiResponse)
        ensures
            self.payload().is_some() ==> response == or,
            self.payload().is_none() ==> self.failure().is_some() && response
                == WifiResponse::Error(self.failure().unwrap()),
    ;
}

impl<T> ConvertToWifiResponse<T> for Result<T, i32> {
    open spec fn payload(&self) -> Option<T> {
        match self {
            Ok(value) => Some(*value),
            Err(_) => None,
        }
    }

    open spec fn failure(&self) -> Option<i32> {
        match self {
            Ok(_) => None,
            Err(code) => Some(*code),
        }
    }

    fn into_resp<F: Fn(T) -> WifiResponse>(self, f: F) -> (response: WifiResponse) {
        match self {
            Ok(value) => f(value),
            Err(code) => WifiResponse::new_error(code),
        }
    }

    fn into_resp_or(self, or: WifiResponse) -> (response: WifiResponse) {
        match self {
            Ok(_) => or,
            Err(code) => WifiResponse::new_error(code),
        }
    }
}

} // verus!
