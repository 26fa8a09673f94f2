//! The speed test provider's configuration and server list, read from the
//! XML documents it serves.

use vstd::prelude::*;
use vstd::utf8::*;
use vstd::string::*;
use std::str::Utf8Error;
use crate::numbers::{decimal, is_digit, lemma_decimal_are_digits, lemma_parse_decimal, parse_int, parse_int_spec, IntErrorKind};
use crate::text::{all_ascii, ascii_text, lemma_ascii_utf8, lemma_bytes_deep_view, lemma_split_on_concat, lemma_split_on_none, split_bytes, split_on, str_eq, str_from_utf8};

verus! {

#[verifier::external_type_specification]
#[verifier::external_body]
pub struct ExXmlError(roxmltree::Error);

/// An attribute of an XML element: its local name and value.
#[derive(Debug)]
pub struct XmlAttribute {
    pub name: String,
    pub value: String,
}

/// A node of an XML document: whether it is an element, its local tag name
/// (empty for other nodes) and its attributes in document order.
#[derive(Debug)]
pub struct XmlNode {
    pub is_element: bool,
    pub name: String,
    pub attributes: Vec<XmlAttribute>,
}

pub ghost struct XmlNodeView {
    pub is_element: bool,
    pub name: Seq<char>,
    pub attributes: Seq<(Seq<char>, Seq<char>)>,
}

impl View for XmlNode {
    type V = XmlNodeView;

    open spec fn view(&self) -> XmlNodeView {
        XmlNodeView {
            is_element: self.is_element,
            name: self.name@,
            attributes: self.attributes@.map_values(|a: XmlAttribute| (a.name@, a.value@)),
        }
    }
}

pub open spec fn node_views(ns: Seq<XmlNode>) -> Seq<XmlNodeView> {
    ns.map_values(|n: XmlNode| n@)
}

/// The nodes of the XML document `text` in document order (the document
/// root first), or `None` where `text` is not a well-formed document.
pub uninterp spec fn xml_nodes(text: Seq<char>) -> Option<Seq<XmlNodeView>>;

/// `roxmltree::Document::parse` followed by a walk over `descendants()`:
/// the parse fails exactly where `xml_nodes` has no document, and each node
/// is given by `is_element`, `tag_name().name()` and `attributes()` (local
/// names and values).  What `xml_nodes` holds is not stated here.
#[verifier::external_body]
fn parse_xml(text: &str) -> (r: Result<Vec<XmlNode>, roxmltree::Error>)
    ensures
        r is Ok <==> xml_nodes(text@) is Some,
        r matches Ok(v) ==> node_views(v@) == xml_nodes(text@).unwrap(),
{
    let doc = roxmltree::Document::parse(text)?;
    Ok(doc.descendants().map(|n| XmlNode {
        is_element: n.is_element(),
        name: n.tag_name().name().to_string(),
        attributes: n.attributes().map(|a| XmlAttribute {
            name: a.name().to_string(),
            value: a.value().to_string(),
        }).collect(),
    }).collect())
}

/// The first element from index `i` on with local name `tag`.
pub open spec fn find_element_from(ns: Seq<XmlNodeView>, tag: Seq<char>, i: int) -> Option<int>
    decreases ns.len() - i,
{
    if i < 0 || i >= ns.len() {
        None
    } else if ns[i].is_element && ns[i].name == tag {
        Some(i)
    } else {
        find_element_from(ns, tag, i + 1)
    }
}

/// The value of the first attribute named `key`.
pub open spec fn attribute_from(attrs: Seq<(Seq<char>, Seq<char>)>, key: Seq<char>, i: int) -> Option<Seq<char>>
    decreases attrs.len() - i,
{
    if i < 0 || i >= attrs.len() {
        None
    } else if attrs[i].0 == key {
        Some(attrs[i].1)
    } else {
        attribute_from(attrs, key, i + 1)
    }
}

pub open spec fn attribute(n: XmlNodeView, key: Seq<char>) -> Option<Seq<char>> {
    attribute_from(n.attributes, key, 0)
}

fn find_element(ns: &Vec<XmlNode>, tag: &str) -> (r: Option<usize>)
    ensures
        r matches Some(i) ==> find_element_from(node_views(ns@), tag@, 0) == Some(i as int) && i < ns@.len(),
        r is None ==> find_element_from(node_views(ns@), tag@, 0) is None,
{
    let n = ns.len();
    let mut i: usize = 0;
    while i < n
        invariant
            n == ns@.len(),
            i <= n,
            find_element_from(node_views(ns@), tag@, 0) == find_element_from(node_views(ns@), tag@, i as int),
        decreases n - i,
    {
        if ns[i].is_element && str_eq(ns[i].name.as_str(), tag) {
            return Some(i);
        }
        i = i + 1;
    }
    None
}

fn get_attribute<'a>(node: &'a XmlNode, key: &str) -> (r: Option<&'a str>)
    ensures
        r matches Some(v) ==> attribute(node@, key@) == Some(v@),
        r is None ==> attribute(node@, key@) is None,
{
    let n = node.attributes.len();
    let ghost av = node@.attributes;
    let mut i: usize = 0;
    while i < n
        invariant
            n == node.attributes@.len(),
            av == node@.attributes,
            i <= n,
            attribute(node@, key@) == attribute_from(av, key@, i as int),
        decreases n - i,
    {
        if str_eq(node.attributes[i].name.as_str(), key) {
            return Some(node.attributes[i].value.as_str());
        }
        i = i + 1;
    }
    None
}

fn get_attribute_string(node: &XmlNode, key: &str) -> (r: Option<String>)
    ensures
        r matches Some(v) ==> attribute(node@, key@) == Some(v@),
        r is None ==> attribute(node@, key@) is None,
{
    match get_attribute(node, key) {
        None => None,
        Some(v) => Some(String::from_str(v)),
    }
}

/// Why the provider's configuration or server list could not be read.
#[derive(Debug)]
pub enum ConfigError {
    NotUtf8(Utf8Error),
    BadXml(roxmltree::Error),
    NoServerConfig,
    NoUploadConfig,
    NoClientInfo,
    NoIgnoreIds,
    BadNumber(IntErrorKind),
    NoRatio,
    BadUploadSize,
}

/// The kind of a `ConfigError`, without its details.
#[derive(Debug, Clone, Copy, PartialEq, Eq, Structural)]
pub enum ConfigFault {
    NotUtf8,
    BadXml,
    NoServerConfig,
    NoUploadConfig,
    NoClientInfo,
    NoIgnoreIds,
    BadNumber(IntErrorKind),
    NoRatio,
    BadUploadSize,
}

impl ConfigError {
    pub open spec fn fault(self) -> ConfigFault {
        match self {
            ConfigError::NotUtf8(_) => ConfigFault::NotUtf8,
            ConfigError::BadXml(_) => ConfigFault::BadXml,
            ConfigError::NoServerConfig => ConfigFault::NoServerConfig,
            ConfigError::NoUploadConfig => ConfigFault::NoUploadConfig,
            ConfigError::NoClientInfo => ConfigFault::NoClientInfo,
            ConfigError::NoIgnoreIds => ConfigFault::NoIgnoreIds,
            ConfigError::BadNumber(k) => ConfigFault::BadNumber(k),
            ConfigError::NoRatio => ConfigFault::NoRatio,
            ConfigError::BadUploadSize => ConfigFault::BadUploadSize,
        }
    }
}

/// The server ids of a comma-separated list, empty items skipped; the
/// first item that is not a decimal `u32` gives the error.
pub open spec fn ids_of(items: Seq<Seq<u8>>) -> Result<Seq<u32>, IntErrorKind>
    decreases items.len(),
{
    if items.len() == 0 {
        Ok(Seq::empty())
    } else if items[0].len() == 0 {
        ids_of(items.drop_first())
    } else {
        match parse_int_spec(items[0], 10, false, 0, 0xffff_ffff) {
            Err(k) => Err(k),
            Ok(x) => match ids_of(items.drop_first()) {
                Err(k) => Err(k),
                Ok(xs) => Ok(seq![x as u32] + xs),
            },
        }
    }
}

fn parse_ids(list: &str) -> (r: Result<Vec<u32>, IntErrorKind>)
    ensures
        r matches Ok(v) ==> ids_of(split_on(list.spec_bytes(), 44)) == Ok::<Seq<u32>, IntErrorKind>(v@),
        r matches Err(k) ==> ids_of(split_on(list.spec_bytes(), 44)) == Err::<Seq<u32>, IntErrorKind>(k),
{
    let items = split_bytes(list.as_bytes(), 44);
    let ghost iv = items.deep_view();
    let n = items.len();
    let mut out: Vec<u32> = Vec::new();
    let mut i: usize = 0;
    assert(iv.subrange(0, n as int) =~= iv);
    while i < n
        invariant
            n == items@.len(),
            iv == items.deep_view(),
            iv == split_on(list.spec_bytes(), 44),
            i <= n,
            ids_of(iv) == match ids_of(iv.subrange(i as int, n as int)) {
                Err(k) => Err(k),
                Ok(xs) => Ok::<Seq<u32>, IntErrorKind>(out@ + xs),
            },
        decreases n - i,
    {
        proof {
            lemma_bytes_deep_view(items@[i as int]);
            assert(iv.subrange(i as int, n as int)[0] == items@[i as int]@);
            assert(iv.subrange(i as int, n as int).drop_first() =~= iv.subrange(i + 1, n as int));
        }
        let item = items[i].as_slice();
        if item.len() != 0 {
            match parse_int(item, 10, false, 0, 0xffff_ffff) {
                Err(k) => return Err(k),
                Ok(x) => {
                    let ghost before = out@;
                    out.push(x as u32);
                    proof {
                        match ids_of(iv.subrange(i + 1, n as int)) {
                            Ok(xs) => {
                                assert(before + (seq![x as u32] + xs) =~= out@ + xs);
                            },
                            Err(_) => {},
                        }
                    }
                },
            }
        }
        i = i + 1;
    }
    assert(iv.subrange(n as int, n as int) =~= Seq::<Seq<u8>>::empty());
    assert(out@ + Seq::<u32>::empty() =~= out@);
    Ok(out)
}

/// What the provider configuration gives: the ids of servers to leave out
/// and the raw attributes read later (client position, upload ratio,
/// client address and provider).
#[derive(Debug)]
pub struct ProviderInfo {
    pub ignore_servers: Vec<u32>,
    pub client_lat: Option<String>,
    pub client_lon: Option<String>,
    pub upload_ratio: Option<String>,
    pub client_ip: Option<String>,
    pub client_isp: Option<String>,
}

pub ghost struct ProviderView {
    pub ignore_servers: Seq<u32>,
    pub client_lat: Option<Seq<char>>,
    pub client_lon: Option<Seq<char>>,
    pub upload_ratio: Option<Seq<char>>,
    pub client_ip: Option<Seq<char>>,
    pub client_isp: Option<Seq<char>>,
}

pub open spec fn opt_view(o: Option<String>) -> Option<Seq<char>> {
    match o {
        Some(s) => Some(s@),
        None => None,
    }
}

impl View for ProviderInfo {
    type V = ProviderView;

    open spec fn view(&self) -> ProviderView {
        ProviderView {
            ignore_servers: self.ignore_servers@,
            client_lat: opt_view(self.client_lat),
            client_lon: opt_view(self.client_lon),
            upload_ratio: opt_view(self.upload_ratio),
            client_ip: opt_view(self.client_ip),
            client_isp: opt_view(self.client_isp),
        }
    }
}

/// The configuration read from the nodes of its document: the first
/// `server-config`, `upload` and `client` elements must exist, and the
/// `ignoreids` attribute of the first must list server ids.
pub open spec fn provider_from_nodes(ns: Seq<XmlNodeView>) -> Result<ProviderView, ConfigFault> {
    match find_element_from(ns, "server-config"@, 0) {
        None => Err(ConfigFault::NoServerConfig),
        Some(sc) => match find_element_from(ns, "upload"@, 0) {
            None => Err(ConfigFault::NoUploadConfig),
            Some(up) => match find_element_from(ns, "client"@, 0) {
                None => Err(ConfigFault::NoClientInfo),
                Some(cl) => match attribute(ns[sc], "ignoreids"@) {
                    None => Err(ConfigFault::NoIgnoreIds),
                    Some(list) => match ids_of(split_on(encode_utf8(list), 44)) {
                        Err(k) => Err(ConfigFault::BadNumber(k)),
                        Ok(ids) => Ok(ProviderView {
                            ignore_servers: ids,
                            client_lat: attribute(ns[cl], "lat"@),
                            client_lon: attribute(ns[cl], "lon"@),
                            upload_ratio: attribute(ns[up], "ratio"@),
                            client_ip: attribute(ns[cl], "ip"@),
                            client_isp: attribute(ns[cl], "isp"@),
                        }),
                    },
                },
            },
        },
    }
}

/// The configuration in a response body: UTF-8 text holding an XML
/// document.
pub open spec fn provider_spec(body: Seq<u8>) -> Result<ProviderView, ConfigFault> {
    if !valid_utf8(body) {
        Err(ConfigFault::NotUtf8)
    } else {
        match xml_nodes(decode_utf8(body)) {
            None => Err(ConfigFault::BadXml),
            Some(ns) => provider_from_nodes(ns),
        }
    }
}

pub open spec fn provider_outcome(r: Result<ProviderInfo, ConfigError>) -> Result<ProviderView, ConfigFault> {
    match r {
        Ok(v) => Ok(v@),
        Err(e) => Err(e.fault()),
    }
}

/// Reads the provider configuration from a response body.
pub fn read_provider_config(body: &[u8]) -> (r: Result<ProviderInfo, ConfigError>)
    ensures
        provider_outcome(r) == provider_spec(body@),
{
    let text = match str_from_utf8(body) {
        Err(e) => return Err(ConfigError::NotUtf8(e)),
        Ok(t) => t,
    };
    let nodes = match parse_xml(text) {
        Err(e) => return Err(ConfigError::BadXml(e)),
        Ok(v) => v,
    };
    let ghost ns = node_views(nodes@);
    let sc = match find_element(&nodes, "server-config") {
        None => return Err(ConfigError::NoServerConfig),
        Some(i) => i,
    };
    let up = match find_element(&nodes, "upload") {
        None => return Err(ConfigError::NoUploadConfig),
        Some(i) => i,
    };
    let cl = match find_element(&nodes, "client") {
        None => return Err(ConfigError::NoClientInfo),
        Some(i) => i,
    };
    assert(ns[sc as int] == nodes@[sc as int]@);
    assert(ns[up as int] == nodes@[up as int]@);
    assert(ns[cl as int] == nodes@[cl as int]@);
    let list = match get_attribute(&nodes[sc], "ignoreids") {
        None => return Err(ConfigError::NoIgnoreIds),
        Some(l) => l,
    };
    let ids = match parse_ids(list) {
        Err(k) => return Err(ConfigError::BadNumber(k)),
        Ok(v) => v,
    };
    Ok(ProviderInfo {
        ignore_servers: ids,
        client_lat: get_attribute_string(&nodes[cl], "lat"),
        client_lon: get_attribute_string(&nodes[cl], "lon"),
        upload_ratio: get_attribute_string(&nodes[up], "ratio"),
        client_ip: get_attribute_string(&nodes[cl], "ip"),
        client_isp: get_attribute_string(&nodes[cl], "isp"),
    })
}

/// Sizes of the upload test bodies, smallest first.
pub open spec fn upload_size_table() -> Seq<u32> {
    seq![32768u32, 65536, 131072, 262144, 524288, 1048576, 7340032]
}

/// Widths of the download test images, smallest first.
pub open spec fn download_size_table() -> Seq<u32> {
    seq![350u32, 500, 750, 1000, 1500, 2000, 2500, 3000, 3500, 4000]
}

/// The widths of the download test images.
pub fn download_sizes() -> (r: Vec<u32>)
    ensures
        r@ == download_size_table(),
{
    let r = vec![350u32, 500, 750, 1000, 1500, 2000, 2500, 3000, 3500, 4000];
    assert(r@ =~= download_size_table());
    r
}

/// The upload sizes for the configured `ratio`: the table from entry
/// `ratio - 1` on.  `None` where the ratio is 0, which has no such entry.
pub open spec fn upload_sizes_spec(ratio: Option<Seq<char>>) -> Option<Result<Seq<u32>, ConfigFault>> {
    match ratio {
        None => Some(Err(ConfigFault::NoRatio)),
        Some(t) => match parse_int_spec(encode_utf8(t), 10, false, 0, usize::MAX as int) {
            Err(k) => Some(Err(ConfigFault::BadNumber(k))),
            Ok(n) => if n == 0 {
                None
            } else if n - 1 > upload_size_table().len() {
                Some(Err(ConfigFault::BadUploadSize))
            } else {
                Some(Ok(upload_size_table().skip(n - 1)))
            },
        },
    }
}

pub open spec fn sizes_outcome(r: Result<Vec<u32>, ConfigError>) -> Result<Seq<u32>, ConfigFault> {
    match r {
        Ok(v) => Ok(v@),
        Err(e) => Err(e.fault()),
    }
}

/// Whether the configured upload ratio is 0, which has no table entry.
pub fn upload_ratio_is_zero(ratio: Option<&str>) -> (r: bool)
    ensures
        r == (upload_sizes_spec(match ratio { Some(t) => Some(t@), None => None }) is None),
{
    match ratio {
        None => false,
        Some(t) => match parse_int(t.as_bytes(), 10, false, 0, usize::MAX as i128) {
            Ok(n) => n == 0,
            Err(_) => false,
        },
    }
}

/// The upload sizes for the configured ratio attribute.
pub fn upload_sizes(ratio: Option<&str>) -> (r: Result<Vec<u32>, ConfigError>)
    requires
        upload_sizes_spec(match ratio { Some(t) => Some(t@), None => None }) is Some,
    ensures
        Some(sizes_outcome(r)) == upload_sizes_spec(match ratio { Some(t) => Some(t@), None => None }),
{
    let t = match ratio {
        None => return Err(ConfigError::NoRatio),
        Some(t) => t,
    };
    let n = match parse_int(t.as_bytes(), 10, false, 0, usize::MAX as i128) {
        Err(k) => return Err(ConfigError::BadNumber(k)),
        Ok(n) => n as usize,
    };
    let table = vec![32768u32, 65536, 131072, 262144, 524288, 1048576, 7340032];
    assert(table@ =~= upload_size_table());
    if n - 1 > table.len() {
        return Err(ConfigError::BadUploadSize);
    }
    let mut out: Vec<u32> = Vec::new();
    let mut i: usize = n - 1;
    while i < table.len()
        invariant
            table@ == upload_size_table(),
            1 <= n,
            n - 1 <= i <= table@.len(),
            out@ == table@.subrange(n - 1, i as int),
        decreases table@.len() - i,
    {
        out.push(table[i]);
        i = i + 1;
        assert(out@ =~= table@.subrange(n - 1, i as int));
    }
    assert(out@ =~= upload_size_table().skip(n - 1));
    Ok(out)
}

/// A server from the provider's list, before its distance is known.
#[derive(Debug)]
pub struct ServerCandidate {
    /// `sponsor/name/country`.
    pub descr: String,
    pub host: String,
    pub id: u32,
    pub lat: String,
    pub lon: String,
}

pub ghost struct CandidateView {
    pub descr: Seq<char>,
    pub host: Seq<char>,
    pub id: u32,
    pub lat: Seq<char>,
    pub lon: Seq<char>,
}

impl View for ServerCandidate {
    type V = CandidateView;

    open spec fn view(&self) -> CandidateView {
        CandidateView { descr: self.descr@, host: self.host@, id: self.id, lat: self.lat@, lon: self.lon@ }
    }
}

/// The server a node describes: a `server` node with `lat`, `lon`,
/// `country`, `name`, `sponsor` and `host` attributes and an `id` that is a
/// decimal `u32`.
pub open spec fn candidate_of(n: XmlNodeView) -> Option<CandidateView> {
    if n.name != "server"@ {
        None
    } else {
        match (attribute(n, "lat"@), attribute(n, "lon"@), attribute(n, "country"@), attribute(n, "name"@),
            attribute(n, "sponsor"@), attribute(n, "host"@), attribute(n, "id"@)) {
            (Some(lat), Some(lon), Some(country), Some(name), Some(sponsor), Some(host), Some(id)) =>
                match parse_int_spec(encode_utf8(id), 10, false, 0, 0xffff_ffff) {
                    Ok(v) => Some(CandidateView {
                        descr: sponsor + "/"@ + name + "/"@ + country,
                        host,
                        id: v as u32,
                        lat,
                        lon,
                    }),
                    Err(_) => None,
                },
            _ => None,
        }
    }
}

/// The servers the nodes describe, in document order, without those whose
/// id is in `ignore`.
pub open spec fn candidates_of(ns: Seq<XmlNodeView>, ignore: Seq<u32>) -> Seq<CandidateView>
    decreases ns.len(),
{
    if ns.len() == 0 {
        Seq::empty()
    } else {
        candidates_of(ns.drop_last(), ignore) + match candidate_of(ns.last()) {
            Some(c) => if ignore.contains(c.id) { Seq::empty() } else { seq![c] },
            None => Seq::empty(),
        }
    }
}

/// The server list in a response body: UTF-8 text holding an XML document.
pub open spec fn server_list_spec(body: Seq<u8>, ignore: Seq<u32>) -> Result<Seq<CandidateView>, ConfigFault> {
    if !valid_utf8(body) {
        Err(ConfigFault::NotUtf8)
    } else {
        match xml_nodes(decode_utf8(body)) {
            None => Err(ConfigFault::BadXml),
            Some(ns) => Ok(candidates_of(ns, ignore)),
        }
    }
}

pub open spec fn candidates_outcome(r: Result<Vec<ServerCandidate>, ConfigError>) -> Result<Seq<CandidateView>, ConfigFault> {
    match r {
        Ok(v) => Ok(v@.map_values(|c: ServerCandidate| c@)),
        Err(e) => Err(e.fault()),
    }
}

fn candidate_exec(n: &XmlNode) -> (r: Option<ServerCandidate>)
    ensures
        r matches Some(c) ==> candidate_of(n@) == Some(c@),
        r is None ==> candidate_of(n@) is None,
{
    if !str_eq(n.name.as_str(), "server") {
        return None;
    }
    let lat = get_attribute(n, "lat");
    let lon = get_attribute(n, "lon");
    let country = get_attribute(n, "country");
    let name = get_attribute(n, "name");
    let sponsor = get_attribute(n, "sponsor");
    let host = get_attribute(n, "host");
    let id = get_attribute(n, "id");
    match (lat, lon, country, name, sponsor, host, id) {
        (Some(lat), Some(lon), Some(country), Some(name), Some(sponsor), Some(host), Some(id)) => {
            match parse_int(id.as_bytes(), 10, false, 0, 0xffff_ffff) {
                Err(_) => None,
                Ok(v) => {
                    let mut descr = String::from_str(sponsor);
                    descr.append("/");
                    descr.append(name);
                    descr.append("/");
                    descr.append(country);
                    Some(ServerCandidate {
                        descr,
                        host: String::from_str(host),
                        id: v as u32,
                        lat: String::from_str(lat),
                        lon: String::from_str(lon),
                    })
                },
            }
        },
        _ => None,
    }
}

fn contains_id(ids: &[u32], id: u32) -> (r: bool)
    ensures
        r == ids@.contains(id),
{
    let n = ids.len();
    let mut i: usize = 0;
    while i < n
        invariant
            n == ids@.len(),
            i <= n,
            forall|j: int| 0 <= j < i ==> ids@[j] != id,
        decreases n - i,
    {
        if ids[i] == id {
            assert(ids@[i as int] == id);
            return true;
        }
        i = i + 1;
    }
    false
}

/// Reads the servers from the provider's server list, leaving out those
/// whose id is in `ignore`.
pub fn server_candidates(body: &[u8], ignore: &[u32]) -> (r: Result<Vec<ServerCandidate>, ConfigError>)
    ensures
        candidates_outcome(r) == server_list_spec(body@, ignore@),
{
    let text = match str_from_utf8(body) {
        Err(e) => return Err(ConfigError::NotUtf8(e)),
        Ok(t) => t,
    };
    let nodes = match parse_xml(text) {
        Err(e) => return Err(ConfigError::BadXml(e)),
        Ok(v) => v,
    };
    let ghost ns = node_views(nodes@);
    let n = nodes.len();
    let mut out: Vec<ServerCandidate> = Vec::new();
    let mut i: usize = 0;
    assert(ns.take(0) =~= Seq::<XmlNodeView>::empty());
    while i < n
        invariant
            n == nodes@.len(),
            ns == node_views(nodes@),
            i <= n,
            out@.map_values(|c: ServerCandidate| c@) == candidates_of(ns.take(i as int), ignore@),
        decreases n - i,
    {
        assert(ns.take(i + 1).drop_last() =~= ns.take(i as int));
        assert(ns.take(i + 1).last() == nodes@[i as int]@);
        let ghost before = out@.map_values(|c: ServerCandidate| c@);
        match candidate_exec(&nodes[i]) {
            Some(c) => {
                if !contains_id(ignore, c.id) {
                    let ghost cv = c@;
                    out.push(c);
                    assert(out@.map_values(|c: ServerCandidate| c@) =~= before + seq![cv]);
                } else {
                    assert(before + Seq::empty() =~= before);
                }
            },
            None => {
                assert(before + Seq::empty() =~= before);
            },
        }
        i = i + 1;
    }
    assert(ns.take(n as int) =~= ns);
    Ok(out)
}

/// The servers of the nodes `ns` less the ignored ones: none has an id in
/// `ignore`, each is the server of some node, and every node's server whose
/// id is not in `ignore` is among them.
pub proof fn lemma_candidates_filtered(ns: Seq<XmlNodeView>, ignore: Seq<u32>)
    ensures
        forall|k: int| 0 <= k < candidates_of(ns, ignore).len() ==> {
            let c = #[trigger] candidates_of(ns, ignore)[k];
            &&& !ignore.contains(c.id)
            &&& exists|j: int| 0 <= j < ns.len() && candidate_of(#[trigger] ns[j]) == Some(c)
        },
        forall|j: int| 0 <= j < ns.len() && (#[trigger] candidate_of(ns[j])) is Some
            && !ignore.contains(candidate_of(ns[j])->0.id)
            ==> candidates_of(ns, ignore).contains(candidate_of(ns[j])->0),
    decreases ns.len(),
{
    if ns.len() > 0 {
        let prev = ns.drop_last();
        lemma_candidates_filtered(prev, ignore);
        let cp = candidates_of(prev, ignore);
        let add = match candidate_of(ns.last()) {
            Some(c) => if ignore.contains(c.id) { Seq::<CandidateView>::empty() } else { seq![c] },
            None => Seq::<CandidateView>::empty(),
        };
        let all = candidates_of(ns, ignore);
        assert(all == cp + add);
        assert forall|k: int| 0 <= k < all.len() implies {
            let c = #[trigger] all[k];
            &&& !ignore.contains(c.id)
            &&& exists|j: int| 0 <= j < ns.len() && candidate_of(#[trigger] ns[j]) == Some(c)
        } by {
            if k < cp.len() {
                assert(all[k] == cp[k]);
                let c = cp[k];
                let j = choose|j: int| 0 <= j < prev.len() && candidate_of(#[trigger] prev[j]) == Some(c);
                assert(ns[j] == prev[j]);
            } else {
                assert(all[k] == add[k - cp.len()]);
                assert(ns[ns.len() - 1] == ns.last());
            }
        }
        assert forall|j: int| 0 <= j < ns.len() && (#[trigger] candidate_of(ns[j])) is Some
            && !ignore.contains(candidate_of(ns[j])->0.id)
            implies all.contains(candidate_of(ns[j])->0) by {
            let c = candidate_of(ns[j])->0;
            if j < prev.len() {
                assert(ns[j] == prev[j]);
                assert(cp.contains(c));
                let k = choose|k: int| 0 <= k < cp.len() && cp[k] == c;
                assert(all[k] == c);
            } else {
                assert(ns[j] == ns.last());
                assert(all[cp.len() as int] == c);
            }
        }
    }
}

/// The server list read from a body leaves out exactly the servers whose id
/// is anywhere in the ignore list: no server returned has such an id, and
/// every server of the document whose id is not in it is returned.
pub proof fn lemma_server_list_ignores(body: Seq<u8>, ignore: Seq<u32>)
    ensures
        server_list_spec(body, ignore) matches Ok(cs) ==> {
            let ns = xml_nodes(decode_utf8(body)).unwrap();
            &&& forall|k: int| 0 <= k < cs.len() ==> !ignore.contains(#[trigger] cs[k].id)
            &&& forall|j: int| 0 <= j < ns.len() && (#[trigger] candidate_of(ns[j])) is Some
                    && !ignore.contains(candidate_of(ns[j])->0.id)
                    ==> cs.contains(candidate_of(ns[j])->0)
        },
{
    if valid_utf8(body) {
        if let Some(ns) = xml_nodes(decode_utf8(body)) {
            lemma_candidates_filtered(ns, ignore);
            let cs = candidates_of(ns, ignore);
            assert forall|k: int| 0 <= k < cs.len() implies !ignore.contains(#[trigger] cs[k].id) by {
                let c = cs[k];
            }
        }
    }
}


/// The items `items` written one after the other with a comma between two.
pub open spec fn comma_joined(items: Seq<Seq<u8>>) -> Seq<u8>
    decreases items.len(),
{
    if items.len() <= 1 {
        if items.len() == 0 { Seq::empty() } else { items[0] }
    } else {
        items[0] + seq![44u8] + comma_joined(items.drop_first())
    }
}

proof fn lemma_split_comma_joined(items: Seq<Seq<u8>>)
    requires
        items.len() >= 1,
        forall|k: int, j: int| 0 <= k < items.len() && 0 <= j < items[k].len() ==> #[trigger] items[k][j] != 44,
    ensures
        split_on(comma_joined(items), 44) == items,
    decreases items.len(),
{
    let a = items[0];
    assert forall|j: int| 0 <= j < a.len() implies #[trigger] a[j] != 44 by {
        assert(items[0][j] != 44);
    }
    lemma_split_on_none(a, 44);
    if items.len() == 1 {
        assert(seq![a] =~= items);
    } else {
        let rest = items.drop_first();
        assert forall|k: int, j: int| 0 <= k < rest.len() && 0 <= j < rest[k].len() implies #[trigger] rest[k][j] != 44 by {
            assert(rest[k] == items[k + 1]);
            assert(items[k + 1][j] != 44);
        }
        lemma_split_comma_joined(rest);
        lemma_split_on_concat(a, comma_joined(rest), 44);
        assert(seq![a] + rest =~= items);
    }
}

/// Every id list read as ids: the non-empty items, each the decimal text
/// of an id, give those ids in order, and empty items are passed over.
pub proof fn lemma_ids_of_written(items: Seq<Seq<u8>>, xs: Seq<u32>)
    requires
        items.filter(|t: Seq<u8>| t.len() > 0) == xs.map_values(|x: u32| decimal(x as nat)),
    ensures
        ids_of(items) == Ok::<Seq<u32>, IntErrorKind>(xs),
    decreases items.len(),
{
    let p = |t: Seq<u8>| t.len() > 0;
    if items.len() == 0 {
        reveal(Seq::filter);
        assert(xs.map_values(|x: u32| decimal(x as nat)).len() == 0);
        assert(xs =~= Seq::<u32>::empty());
    } else {
        let rest = items.drop_first();
        assert(items =~= seq![items[0]] + rest);
        rest.lemma_filter_prepend(items[0], p);
        if items[0].len() == 0 {
            assert(items.filter(p) =~= rest.filter(p));
            lemma_ids_of_written(rest, xs);
        } else {
            let ys = xs.map_values(|x: u32| decimal(x as nat));
            assert(items.filter(p) == seq![items[0]] + rest.filter(p));
            assert(ys.len() >= 1);
            assert(ys[0] == items[0]);
            let x = xs[0];
            let tail = xs.drop_first();
            assert(rest.filter(p) =~= tail.map_values(|x: u32| decimal(x as nat))) by {
                assert(rest.filter(p) =~= ys.drop_first());
            }
            lemma_ids_of_written(rest, tail);
            let d = decimal(x as nat);
            lemma_decimal_are_digits(x as nat);
            lemma_parse_decimal(x as nat, 0, 0xffff_ffff);
            assert(is_digit(d[0]));
            assert(parse_int_spec(d, 10, false, 0, 0xffff_ffff) == Ok::<int, IntErrorKind>(x as int));
            assert(seq![x] + tail =~= xs);
        }
    }
}

/// An `ignoreids` list written as decimal ids with commas between, where
/// any item may also be left empty, is read as the ids written, in order.
pub proof fn lemma_ignore_ids_read(items: Seq<Seq<u8>>, xs: Seq<u32>)
    requires
        items.len() >= 1,
        forall|k: int| 0 <= k < items.len() ==> #[trigger] items[k].len() == 0 || exists|x: u32| items[k] == decimal(x as nat),
        items.filter(|t: Seq<u8>| t.len() > 0) == xs.map_values(|x: u32| decimal(x as nat)),
    ensures
        ids_of(split_on(comma_joined(items), 44)) == Ok::<Seq<u32>, IntErrorKind>(xs),
{
    assert forall|k: int, j: int| 0 <= k < items.len() && 0 <= j < items[k].len() implies #[trigger] items[k][j] != 44 by {
        let x = choose|x: u32| items[k] == decimal(x as nat);
        lemma_decimal_are_digits(x as nat);
        assert(is_digit(items[k][j]));
    }
    lemma_split_comma_joined(items);
    lemma_ids_of_written(items, xs);
}


/// An upload ratio written in decimal picks the sizes: ratio `n` from 1 to
/// one past the table's length gives the table from its entry `n - 1` on
/// (the last of these none), a larger one is refused, and 0 has no entry.
pub proof fn lemma_upload_ratio(n: nat)
    requires
        n <= usize::MAX,
    ensures
        1 <= n <= upload_size_table().len() + 1 ==> upload_sizes_spec(Some(ascii_text(decimal(n))))
            == Some(Ok::<Seq<u32>, ConfigFault>(upload_size_table().skip(n - 1))),
        1 <= n <= upload_size_table().len() + 1 ==> upload_size_table().skip(n - 1).len() == upload_size_table().len() + 1 - n,
        n > upload_size_table().len() + 1 ==> upload_sizes_spec(Some(ascii_text(decimal(n))))
            == Some(Err::<Seq<u32>, ConfigFault>(ConfigFault::BadUploadSize)),
        n == 0 ==> upload_sizes_spec(Some(ascii_text(decimal(n)))) is None,
{
    let d = decimal(n);
    lemma_decimal_are_digits(n);
    assert(all_ascii(d)) by {
        assert forall|i: int| 0 <= i < d.len() implies #[trigger] d[i] < 128 by {
            assert(is_digit(d[i]));
        }
    }
    lemma_ascii_utf8(d);
    lemma_parse_decimal(n, 0, usize::MAX as int);
    assert(is_digit(d[0]));
    assert(parse_int_spec(d, 10, false, 0, usize::MAX as int) == Ok::<int, IntErrorKind>(n as int));
}

} // verus!
