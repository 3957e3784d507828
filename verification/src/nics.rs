//! The network adapters of a virtual machine, read from the flat map of its description.
//!
//! Adapter number `n`, from 1 to 8, is described by the key `nicn`, which names its kind, by a
//! key that depends on the kind, and by `macaddressn`.

use crate::branch::{decimal, numbered, numbered_key, push_decimal};
use crate::err::Error;
use crate::flatmap::{FlatMap, Pairs};
use crate::utils::same_text;
use vstd::prelude::*;

verus! {

/// An adapter that is bridged to an adapter of the host.
#[derive(Debug)]
pub struct BridgedNIC {
    pub adapter: String,
}

/// An adapter on an internal network.
#[derive(Debug)]
pub struct IntNetNIC {
    pub name: String,
}

/// The kinds of adapter that this library knows.
#[derive(Debug)]
pub enum NICType {
    Bridged(BridgedNIC),
    IntNet(IntNetNIC),
}

/// One network adapter: its number, its kind and its hardware address.
#[derive(Debug)]
pub struct NICInfo {
    pub idx: u8,
    pub nictype: NICType,
    pub mac: [u8; 6],
}

/// The kind of an adapter as mathematical data.
pub enum NICTypeView {
    Bridged(Seq<char>),
    IntNet(Seq<char>),
}

/// An adapter as mathematical data.
pub struct NICInfoView {
    pub idx: u8,
    pub nictype: NICTypeView,
    pub mac: [u8; 6],
}

impl View for NICType {
    type V = NICTypeView;

    open spec fn view(&self) -> NICTypeView {
        match self {
            NICType::Bridged(nic) => NICTypeView::Bridged(nic.adapter@),
            NICType::IntNet(nic) => NICTypeView::IntNet(nic.name@),
        }
    }
}

impl View for NICInfo {
    type V = NICInfoView;

    open spec fn view(&self) -> NICInfoView {
        NICInfoView { idx: self.idx, nictype: self.nictype@, mac: self.mac }
    }
}

/// Why a text is no hardware address.
#[derive(Clone, Copy, Debug)]
pub enum MacFault {
    /// The text has this many bytes, which is not between 11 and 17.
    InvalidLength(usize),
    /// This many bytes were found in the text, not six; the first of them are given.
    InvalidByteCount(usize, [u8; 6]),
}

/// What `eui48::MacAddress::parse_str` makes of a text: the six bytes of the address, or the
/// reason for which the text is refused.
pub uninterp spec fn mac_parse_str(text: Seq<char>) -> Result<[u8; 6], MacFault>;

/// Calls `eui48::MacAddress::parse_str` and hands back the bytes of the address
/// (`MacAddress::to_array`), or the fields of `eui48::ParseError`. The contract names that
/// result and claims no more of it.
#[verifier::external_body]
pub(crate) fn parse_mac(text: &str) -> (r: Result<[u8; 6], MacFault>)
    ensures
        r == mac_parse_str(text@),
{
    match eui48::MacAddress::parse_str(text) {
        Ok(mac) => Ok(mac.to_array()),
        Err(eui48::ParseError::InvalidLength(found)) => Err(MacFault::InvalidLength(found)),
        Err(eui48::ParseError::InvalidByteCount(found, bytes)) => Err(
            MacFault::InvalidByteCount(found, bytes),
        ),
    }
}

/// Numbers in decimal with `, ` between neighbours.
pub open spec fn joined(bytes: Seq<u8>) -> Seq<char>
    decreases bytes.len(),
{
    if bytes.len() == 0 {
        Seq::empty()
    } else if bytes.len() == 1 {
        decimal(bytes[0] as nat)
    } else {
        joined(bytes.drop_last()) + ", "@ + decimal(bytes.last() as nat)
    }
}

/// How many of the six bytes of a fault are shown: as many as were found, six at most.
pub open spec fn shown(found: usize) -> int {
    if found < 6 {
        found as int
    } else {
        6
    }
}

/// The message for a text that is no hardware address.
pub open spec fn fault_message(fault: MacFault) -> Seq<char> {
    match fault {
        MacFault::InvalidLength(found) => "Invalid length; expecting 11 to 17 chars, found "@
            + decimal(found as nat),
        MacFault::InvalidByteCount(found, bytes) => "Invalid byte count; Matched `"@ + decimal(
            found as nat,
        ) + "` bytes (["@ + joined(bytes@.take(shown(found))) + "])"@,
    }
}

/// The message for a text that is no hardware address.
pub fn fault_text(fault: &MacFault) -> (text: String)
    ensures
        text@ == fault_message(*fault),
{
    match fault {
        MacFault::InvalidLength(found) => {
            let mut text = String::from_str("Invalid length; expecting 11 to 17 chars, found ");
            push_decimal(&mut text, *found);
            text
        },
        MacFault::InvalidByteCount(found, bytes) => {
            let mut text = String::from_str("Invalid byte count; Matched `");
            push_decimal(&mut text, *found);
            text.append("` bytes ([");
            let ghost head = text@;
            let count: usize = if *found < 6 {
                *found
            } else {
                6
            };
            let mut i: usize = 0;
            while i < count
                invariant
                    i <= count <= 6,
                    text@ == head + joined(bytes@.take(i as int)),
                decreases count - i,
            {
                let ghost before = bytes@.take(i as int);
                let ghost after = bytes@.take(i + 1);
                proof {
                    assert(after.drop_last() =~= before);
                    assert(after.last() == bytes[i as int]);
                }
                if i > 0 {
                    text.append(", ");
                }
                push_decimal(&mut text, bytes[i] as usize);
                proof {
                    if i == 0 {
                        assert(joined(after) == decimal(bytes[0] as nat));
                        assert(text@ =~= head + joined(after));
                    } else {
                        assert(joined(after) == joined(before) + ", "@ + decimal(
                            bytes[i as int] as nat,
                        ));
                        assert(text@ =~= head + joined(after));
                    }
                }
                i += 1;
            }
            text.append("])");
            assert(text@ =~= fault_message(*fault));
            text
        },
    }
}

/// The error for a text that is no hardware address: `BadFormat` with the message of the
/// fault.
pub fn bad_address(fault: &MacFault) -> (e: Error)
    ensures
        e is BadFormat,
        e.message() == fault_message(*fault),
{
    Error::BadFormat(fault_text(fault))
}

/// The kind of adapter number `idx`, where the map names a kind that this library knows and
/// holds what that kind needs.
pub open spec fn slot_type(m: Pairs, idx: nat) -> Option<NICTypeView> {
    let kind = numbered("nic"@, idx);
    let adapter = numbered("bridgeadapter"@, idx);
    let network = numbered("intnet"@, idx);
    if !m.contains_key(kind) {
        None
    } else if m[kind] == "none"@ {
        None
    } else if m[kind] == "bridged"@ {
        if m.contains_key(adapter) {
            Some(NICTypeView::Bridged(m[adapter]))
        } else {
            None
        }
    } else if m[kind] == "intnet"@ {
        if m.contains_key(network) {
            Some(NICTypeView::IntNet(m[network]))
        } else {
            None
        }
    } else {
        None
    }
}

/// The kind of adapter number `idx` and the text of its hardware address, where the map
/// holds both.
pub open spec fn slot_fields(m: Pairs, idx: nat) -> Option<
    (NICTypeView, Seq<char>),
> {
    let address = numbered("macaddress"@, idx);
    match slot_type(m, idx) {
        None => None,
        Some(nictype) => if m.contains_key(address) {
            Some((nictype, m[address]))
        } else {
            None
        },
    }
}

/// What the map holds for one adapter number.
pub enum Slot {
    /// No adapter that this library can describe.
    Empty,
    /// An adapter.
    Nic(NICInfoView),
    /// An adapter whose hardware address does not parse.
    Fault(MacFault),
}

/// What the map holds for adapter number `idx`.
pub open spec fn slot(m: Pairs, idx: nat) -> Slot {
    match slot_fields(m, idx) {
        None => Slot::Empty,
        Some((nictype, address)) => match mac_parse_str(address) {
            Ok(mac) => Slot::Nic(NICInfoView { idx: idx as u8, nictype, mac }),
            Err(fault) => Slot::Fault(fault),
        },
    }
}

/// The adapters numbered 1 to `n` in the order of their numbers, or the fault of the first
/// hardware address among them that does not parse.
pub open spec fn nics_upto(m: Pairs, n: nat) -> Result<
    Seq<NICInfoView>,
    MacFault,
>
    decreases n,
{
    if n == 0 {
        Ok(Seq::empty())
    } else {
        match nics_upto(m, (n - 1) as nat) {
            Err(fault) => Err(fault),
            Ok(list) => match slot(m, n) {
                Slot::Empty => Ok(list),
                Slot::Nic(info) => Ok(list.push(info)),
                Slot::Fault(fault) => Err(fault),
            },
        }
    }
}

/// The adapters of a list as mathematical data.
pub open spec fn nic_views(nics: Seq<NICInfo>) -> Seq<NICInfoView> {
    nics.map_values(|nic: NICInfo| nic@)
}

/// Whether `r` is the outcome of reading the adapters of a map: the adapters 1 to 8, or
/// `BadFormat` with the message for the first hardware address that does not parse.
pub open spec fn reads_nics(m: Pairs, r: Result<Vec<NICInfo>, Error>) -> bool {
    match r {
        Ok(nics) => nics_upto(m, 8) == Ok::<Seq<NICInfoView>, MacFault>(nic_views(nics@)),
        Err(e) => nics_upto(m, 8) matches Err(fault) && e is BadFormat && e.message()
            == fault_message(fault),
    }
}

/// The kind and the text of a hardware address as mathematical data.
pub open spec fn fields_view(fields: Option<(NICType, String)>) -> Option<
    (NICTypeView, Seq<char>),
> {
    match fields {
        Some((nictype, address)) => Some((nictype@, address@)),
        None => None,
    }
}

/// Looks up the kind of adapter number `idx` and the text of its hardware address.
///
/// A number whose kind is absent, `none` or unknown holds nothing, and so does one that lacks
/// the key of its kind or its hardware address.
pub fn adapter_fields(map: &FlatMap, idx: u8) -> (fields: Option<(NICType, String)>)
    ensures
        fields_view(fields) == slot_fields(map@, idx as nat),
{
    let n: usize = idx as usize;
    let kind = match map.get(numbered_key("nic", n).as_str()) {
        Some(kind) => kind,
        None => {
            return None;
        },
    };
    let nictype = if same_text(kind.as_str(), "none") {
        return None;
    } else if same_text(kind.as_str(), "bridged") {
        match map.get(numbered_key("bridgeadapter", n).as_str()) {
            Some(adapter) => NICType::Bridged(BridgedNIC { adapter: adapter.clone() }),
            None => {
                return None;
            },
        }
    } else if same_text(kind.as_str(), "intnet") {
        match map.get(numbered_key("intnet", n).as_str()) {
            Some(name) => NICType::IntNet(IntNetNIC { name: name.clone() }),
            None => {
                return None;
            },
        }
    } else {
        return None;
    };
    match map.get(numbered_key("macaddress", n).as_str()) {
        Some(address) => Some((nictype, address.clone())),
        None => None,
    }
}

/// Reads the network adapters 1 to 8 from the flat map of a machine's description.
///
/// A number whose kind is absent, `none` or unknown is passed over, and so is one that lacks
/// the key of its kind or its hardware address. A hardware address that does not parse ends
/// the reading with `BadFormat`.
pub fn get_from_map(map: &FlatMap) -> (r: Result<Vec<NICInfo>, Error>)
    ensures
        reads_nics(map@, r),
{
    let ghost m = map@;
    let mut nics: Vec<NICInfo> = Vec::new();
    let mut idx: u8 = 1;
    assert(nic_views(nics@) =~= Seq::empty());
    while idx <= 8
        invariant
            m == map@,
            1 <= idx <= 9,
            nics_upto(m, (idx - 1) as nat) == Ok::<Seq<NICInfoView>, MacFault>(nic_views(nics@)),
        decreases 9 - idx,
    {
        match adapter_fields(map, idx) {
            Some((nictype, address)) => match parse_mac(address.as_str()) {
                Ok(mac) => {
                    let ghost before = nics@;
                    nics.push(NICInfo { idx, nictype, mac });
                    assert(nic_views(nics@) =~= nic_views(before).push(nics@.last()@));
                },
                Err(fault) => {
                    proof {
                        lemma_fault_stays(m, idx as nat, 8);
                    }
                    return Err(bad_address(&fault));
                },
            },
            None => {},
        }
        idx += 1;
    }
    Ok(nics)
}

/// Once a hardware address has failed to parse, the adapters that follow do not matter.
proof fn lemma_fault_stays(m: Pairs, n: nat, later: nat)
    requires
        nics_upto(m, n) is Err,
        n <= later,
    ensures
        nics_upto(m, later) == nics_upto(m, n),
    decreases later,
{
    if n < later {
        lemma_fault_stays(m, n, (later - 1) as nat);
    }
}

} // verus!
