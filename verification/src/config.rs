use vstd::prelude::*;
use vstd::utf8::*;

use crate::ser::{
    bool_bytes, string_bytes, write_bool, write_slice, write_string, WritingError,
    MAX_STRING_BYTES,
};
use crate::var_int::{var_int_bytes, write_var_int, VarInt};
use crate::version::JavaMinecraftVersion;

verus! {

/// What a writer appended and whether it finished: writing stops at the first
/// string that is too long, and what was written before it stays.
pub struct Written {
    pub bytes: Seq<u8>,
    pub ok: bool,
}

/// `first`, then `second` if `first` finished.
pub open spec fn then_write(first: Written, second: Written) -> Written {
    if first.ok {
        Written { bytes: first.bytes + second.bytes, ok: second.ok }
    } else {
        first
    }
}

/// Writing bytes that cannot fail.
pub open spec fn plain(bytes: Seq<u8>) -> Written {
    Written { bytes, ok: true }
}

/// Writing a string: refused, with nothing written, when its UTF-8 encoding
/// is longer than `MAX_STRING_BYTES`.
pub open spec fn string_write(s: Seq<char>) -> Written {
    if encode_utf8(s).len() <= MAX_STRING_BYTES {
        plain(string_bytes(s))
    } else {
        Written { bytes: Seq::empty(), ok: false }
    }
}

/// How one string of a list is written.
pub open spec fn string_writer() -> spec_fn(Seq<char>) -> Written {
    |s: Seq<char>| string_write(s)
}

/// Writing the items of `xs` one after the other, stopping at the first that
/// fails.
pub open spec fn list_write<A>(xs: Seq<A>, f: spec_fn(A) -> Written) -> Written
    decreases xs.len(),
{
    if xs.len() == 0 {
        plain(Seq::empty())
    } else {
        then_write(f(xs[0]), list_write(xs.drop_first(), f))
    }
}

/// The characters of each string.
pub open spec fn strs_view(xs: Seq<&str>) -> Seq<Seq<char>> {
    xs.map_values(|s: &str| s@)
}

/// Writing `xs` and then `x` is writing `xs.push(x)`.
pub proof fn lemma_list_write_push<A>(xs: Seq<A>, x: A, f: spec_fn(A) -> Written)
    ensures
        list_write(xs.push(x), f) == then_write(list_write(xs, f), f(x)),
    decreases xs.len(),
{
    if xs.len() == 0 {
        assert(xs.push(x).drop_first() =~= Seq::<A>::empty());
        let w = f(x);
        assert(list_write(Seq::<A>::empty(), f) == plain(Seq::empty()));
        assert(w.bytes + Seq::<u8>::empty() =~= w.bytes);
        assert(Seq::<u8>::empty() + w.bytes =~= w.bytes);
    } else {
        assert(xs.push(x).drop_first() =~= xs.drop_first().push(x));
        lemma_list_write_push(xs.drop_first(), x, f);
        let a = f(xs[0]);
        let b = list_write(xs.drop_first(), f);
        let c = f(x);
        if a.ok && b.ok {
            assert(a.bytes + (b.bytes + c.bytes) =~= (a.bytes + b.bytes) + c.bytes);
        }
    }
}

/// Appends a string as `string_write` describes it.
fn write_string_step(out: &mut Vec<u8>, s: &str) -> (r: Result<(), WritingError>)
    ensures
        final(out)@ == old(out)@ + string_write(s@).bytes,
        r is Ok <==> string_write(s@).ok,
        r is Err ==> r == Err::<(), WritingError>(WritingError::StringTooLong),
{
    let r = write_string(out, s);
    assert(Seq::<u8>::empty() + old(out)@ =~= old(out)@);
    assert(old(out)@ + Seq::<u8>::empty() =~= old(out)@);
    r
}

/// Appends the strings of `items`, each length-prefixed, stopping at the
/// first that is too long.
fn write_strings(out: &mut Vec<u8>, items: &[&str]) -> (r: Result<(), WritingError>)
    ensures
        final(out)@ == old(out)@ + list_write(strs_view(items@), string_writer()).bytes,
        r is Ok <==> list_write(strs_view(items@), string_writer()).ok,
        r is Err ==> r == Err::<(), WritingError>(WritingError::StringTooLong),
{
    let ghost start = out@;
    let ghost view = strs_view(items@);
    let mut i: usize = 0;
    proof {
        assert(view.take(0) =~= Seq::<Seq<char>>::empty());
        assert(start + Seq::<u8>::empty() =~= start);
    }
    while i < items.len()
        invariant
            i <= items@.len(),
            view == strs_view(items@),
            start == old(out)@,
            list_write(view.take(i as int), string_writer()).ok,
            out@ == start + list_write(view.take(i as int), string_writer()).bytes,
        decreases items@.len() - i,
    {
        proof {
            lemma_list_write_push(view.take(i as int), view[i as int], string_writer());
            assert(view.take(i as int).push(view[i as int]) =~= view.take(i + 1));
        }
        assert(view[i as int] == items@[i as int]@);
        let r = write_string_step(out, items[i]);
        assert(out@ =~= start + list_write(view.take(i + 1), string_writer()).bytes);
        match r {
            Ok(()) => {},
            Err(e) => {
                proof {
                    lemma_list_write_stops(view, (i + 1) as nat, string_writer());
                }
                assert(out@ =~= start + list_write(view, string_writer()).bytes);
                return Err(e);
            },
        }
        assert(out@ =~= start + list_write(view.take(i + 1), string_writer()).bytes);
        i = i + 1;
    }
    assert(view.take(i as int) =~= view);
    Ok(())
}

/// Once a prefix of the list fails, the whole list writes what the prefix
/// wrote.
pub proof fn lemma_list_write_stops<A>(xs: Seq<A>, k: nat, f: spec_fn(A) -> Written)
    requires
        k <= xs.len(),
        !list_write(xs.take(k as int), f).ok,
    ensures
        list_write(xs, f) == list_write(xs.take(k as int), f),
    decreases xs.len() - k,
{
    if k < xs.len() {
        lemma_list_write_push(xs.take(k as int), xs[k as int], f);
        assert(xs.take(k as int).push(xs[k as int]) =~= xs.take((k + 1) as int));
        lemma_list_write_stops(xs, k + 1, f);
    } else {
        assert(xs.take(k as int) =~= xs);
    }
}

/// The id of a configuration packet: release 26.2 uses `id_26_2`, every
/// other release the id that the generated packet table lists for it.
pub open spec fn packet_id(version: JavaMinecraftVersion, id_26_2: i32, listed_id: i32) -> i32 {
    if version == JavaMinecraftVersion::V_26_2 {
        id_26_2
    } else {
        listed_id
    }
}

/// Writes a list: its length as a VarInt, then each item.
pub open spec fn counted_list_write<A>(xs: Seq<A>, f: spec_fn(A) -> Written) -> Written {
    then_write(plain(var_int_bytes(xs.len() as i32)), list_write(xs, f))
}

/// Tells the client which feature flags are enabled.
pub struct CFeatureFlags<'a> {
    pub features: &'a [&'a str],
}

impl<'a> CFeatureFlags<'a> {
    pub fn new(features: &'a [&'a str]) -> (r: Self)
        ensures
            r.features == features,
    {
        Self { features }
    }

    /// The packet's id in `version`; `listed_id` is the id that the
    /// generated packet table lists for `version`.
    pub fn to_id(version: JavaMinecraftVersion, listed_id: i32) -> (r: i32)
        ensures
            r == packet_id(version, 12, listed_id),
    {
        if version == JavaMinecraftVersion::V_26_2 {
            12
        } else {
            listed_id
        }
    }

    /// Appends the feature names as a counted list of strings.
    pub fn write_packet_data(&self, out: &mut Vec<u8>, _version: &JavaMinecraftVersion) -> (r:
        Result<(), WritingError>)
        ensures
            final(out)@ == old(out)@ + counted_list_write(strs_view(self.features@), string_writer()).bytes,
            r is Ok <==> counted_list_write(strs_view(self.features@), string_writer()).ok,
            r is Err ==> r == Err::<(), WritingError>(WritingError::StringTooLong),
    {
        write_var_int(out, &VarInt(self.features.len() as i32));
        let r = write_strings(out, self.features);
        assert(out@ =~= old(out)@ + counted_list_write(strs_view(self.features@), string_writer()).bytes);
        r
    }
}

/// A data pack that both sides may know: its namespace, id and version.
pub struct KnownPack<'a> {
    pub namespace: &'a str,
    pub id: &'a str,
    pub version: &'a str,
}

/// Writing a known pack: its namespace, id and version as strings.
pub open spec fn known_pack_write(p: KnownPack) -> Written {
    then_write(then_write(string_write(p.namespace@), string_write(p.id@)), string_write(p.version@))
}

/// How one known pack of a list is written.
pub open spec fn known_pack_writer<'a>() -> spec_fn(KnownPack<'a>) -> Written {
    |p: KnownPack<'a>| known_pack_write(p)
}

impl<'a> KnownPack<'a> {
    /// Appends the pack's namespace, id and version.
    pub fn write(&self, out: &mut Vec<u8>) -> (r: Result<(), WritingError>)
        ensures
            final(out)@ == old(out)@ + known_pack_write(*self).bytes,
            r is Ok <==> known_pack_write(*self).ok,
            r is Err ==> r == Err::<(), WritingError>(WritingError::StringTooLong),
    {
        let ghost start = out@;
        let r1 = write_string_step(out, self.namespace);
        if r1.is_err() {
            return r1;
        }
        let r2 = write_string_step(out, self.id);
        if r2.is_err() {
            assert(out@ =~= start + known_pack_write(*self).bytes);
            return r2;
        }
        let r3 = write_string_step(out, self.version);
        assert(out@ =~= start + known_pack_write(*self).bytes);
        r3
    }
}

/// Asks the client which of the server's known packs it has.
pub struct CKnownPacks<'a> {
    pub known_packs: &'a [KnownPack<'a>],
}

impl<'a> CKnownPacks<'a> {
    pub fn new(known_packs: &'a [KnownPack<'a>]) -> (r: Self)
        ensures
            r.known_packs == known_packs,
    {
        Self { known_packs }
    }

    /// The packet's id in `version`; `listed_id` is the id that the
    /// generated packet table lists for `version`.
    pub fn to_id(version: JavaMinecraftVersion, listed_id: i32) -> (r: i32)
        ensures
            r == packet_id(version, 7, listed_id),
    {
        if version == JavaMinecraftVersion::V_26_2 {
            7
        } else {
            listed_id
        }
    }

    /// Appends the packs as a counted list.
    pub fn write_packet_data(&self, out: &mut Vec<u8>, _version: &JavaMinecraftVersion) -> (r:
        Result<(), WritingError>)
        ensures
            final(out)@ == old(out)@ + counted_list_write(self.known_packs@, known_pack_writer()).bytes,
            r is Ok <==> counted_list_write(self.known_packs@, known_pack_writer()).ok,
            r is Err ==> r == Err::<(), WritingError>(WritingError::StringTooLong),
    {
        let ghost start = out@;
        let ghost packs = self.known_packs@;
        write_var_int(out, &VarInt(self.known_packs.len() as i32));
        let ghost head = out@;
        let mut i: usize = 0;
        proof {
            assert(packs.take(0) =~= Seq::<KnownPack>::empty());
            assert(head + Seq::<u8>::empty() =~= head);
        }
        while i < self.known_packs.len()
            invariant
                i <= packs.len(),
                packs == self.known_packs@,
                start == old(out)@,
                head == start + var_int_bytes(packs.len() as i32),
                list_write(packs.take(i as int), known_pack_writer()).ok,
                out@ == head + list_write(packs.take(i as int), known_pack_writer()).bytes,
            decreases packs.len() - i,
        {
            proof {
                lemma_list_write_push(packs.take(i as int), packs[i as int], known_pack_writer());
                assert(packs.take(i as int).push(packs[i as int]) =~= packs.take(i + 1));
            }
            let r = self.known_packs[i].write(out);
            assert(out@ =~= head + list_write(packs.take(i + 1), known_pack_writer()).bytes);
            if r.is_err() {
                proof {
                    lemma_list_write_stops(packs, (i + 1) as nat, known_pack_writer());
                }
                assert(out@ =~= start + counted_list_write(packs, known_pack_writer()).bytes);
                return r;
            }
            i = i + 1;
        }
        assert(packs.take(i as int) =~= packs);
        assert(out@ =~= start + counted_list_write(packs, known_pack_writer()).bytes);
        Ok(())
    }
}

/// A custom payload on a named channel.
pub struct CPluginMessage<'a> {
    pub channel: &'a str,
    pub data: &'a [u8],
}

impl<'a> CPluginMessage<'a> {
    pub fn new(channel: &'a str, data: &'a [u8]) -> (r: Self)
        ensures
            r.channel == channel,
            r.data == data,
    {
        Self { channel, data }
    }

    /// The packet's id in `version`; `listed_id` is the id that the
    /// generated packet table lists for `version`.
    pub fn to_id(version: JavaMinecraftVersion, listed_id: i32) -> (r: i32)
        ensures
            r == packet_id(version, 2, listed_id),
    {
        if version == JavaMinecraftVersion::V_26_2 {
            2
        } else {
            listed_id
        }
    }

    /// Appends the channel as a string, then the payload as it is.
    pub fn write_packet_data(&self, out: &mut Vec<u8>, _version: &JavaMinecraftVersion) -> (r:
        Result<(), WritingError>)
        ensures
            final(out)@ == old(out)@ + then_write(string_write(self.channel@), plain(self.data@)).bytes,
            r is Ok <==> string_write(self.channel@).ok,
            r is Err ==> r == Err::<(), WritingError>(WritingError::StringTooLong),
    {
        let r = write_string_step(out, self.channel);
        if r.is_err() {
            return r;
        }
        write_slice(out, self.data);
        assert(out@ =~= old(out)@ + then_write(string_write(self.channel@), plain(self.data@)).bytes);
        Ok(())
    }
}

/// The kinds of link that the client labels itself.
#[derive(Clone, Copy, Debug, PartialEq, Eq, Structural)]
pub enum LinkType {
    BugReport,
    CommunityGuidelines,
    Support,
    Status,
    Feedback,
    Community,
    Website,
    Forums,
    News,
    Announcements,
}

/// The protocol's number for each kind of link.
pub open spec fn link_type_id(t: LinkType) -> i32 {
    match t {
        LinkType::BugReport => 0,
        LinkType::CommunityGuidelines => 1,
        LinkType::Support => 2,
        LinkType::Status => 3,
        LinkType::Feedback => 4,
        LinkType::Community => 5,
        LinkType::Website => 6,
        LinkType::Forums => 7,
        LinkType::News => 8,
        LinkType::Announcements => 9,
    }
}

impl LinkType {
    /// The protocol's number for this kind of link.
    pub fn id(&self) -> (r: i32)
        ensures
            r == link_type_id(*self),
    {
        match self {
            LinkType::BugReport => 0,
            LinkType::CommunityGuidelines => 1,
            LinkType::Support => 2,
            LinkType::Status => 3,
            LinkType::Feedback => 4,
            LinkType::Community => 5,
            LinkType::Website => 6,
            LinkType::Forums => 7,
            LinkType::News => 8,
            LinkType::Announcements => 9,
        }
    }
}

/// The protocol numbers the kinds of link in the order they are listed:
/// bug report 0, community guidelines 1, support 2, status 3, feedback 4,
/// community 5, website 6, forums 7, news 8, announcements 9.
pub proof fn lemma_link_type_ids()
    ensures
        link_type_id(LinkType::BugReport) == 0,
        link_type_id(LinkType::CommunityGuidelines) == 1,
        link_type_id(LinkType::Support) == 2,
        link_type_id(LinkType::Status) == 3,
        link_type_id(LinkType::Feedback) == 4,
        link_type_id(LinkType::Community) == 5,
        link_type_id(LinkType::Website) == 6,
        link_type_id(LinkType::Forums) == 7,
        link_type_id(LinkType::News) == 8,
        link_type_id(LinkType::Announcements) == 9,
{
}

/// The label of a link: a kind that the client names itself, or a text
/// component, given here already encoded.
pub enum Label<'a> {
    BuiltIn(LinkType),
    TextComponent(&'a [u8]),
}

/// A link that the client shows in its menu.
pub struct Link<'a> {
    pub is_built_in: bool,
    pub label: Label<'a>,
    pub url: &'a str,
}

/// The bytes of a label: the kind's number as a VarInt, or the encoded text
/// component.
pub open spec fn label_bytes(l: Label) -> Seq<u8> {
    match l {
        Label::BuiltIn(t) => var_int_bytes(link_type_id(t)),
        Label::TextComponent(c) => c@,
    }
}

/// A built-in label goes on the wire as one byte: the kind's number.
pub proof fn lemma_built_in_label_byte(t: LinkType)
    ensures
        label_bytes(Label::BuiltIn(t)) == seq![link_type_id(t) as u8],
{
}

/// Writing a link: whether its label is built in, the label, then the URL as
/// a string.
pub open spec fn link_write(l: Link) -> Written {
    then_write(plain(bool_bytes(l.is_built_in) + label_bytes(l.label)), string_write(l.url@))
}

/// How one link of a list is written.
pub open spec fn link_writer<'a>() -> spec_fn(Link<'a>) -> Written {
    |l: Link<'a>| link_write(l)
}

impl<'a> Link<'a> {
    /// Appends the link.
    pub fn write(&self, out: &mut Vec<u8>) -> (r: Result<(), WritingError>)
        ensures
            final(out)@ == old(out)@ + link_write(*self).bytes,
            r is Ok <==> link_write(*self).ok,
            r is Err ==> r == Err::<(), WritingError>(WritingError::StringTooLong),
    {
        write_bool(out, self.is_built_in);
        match &self.label {
            Label::BuiltIn(t) => write_var_int(out, &VarInt(t.id())),
            Label::TextComponent(c) => write_slice(out, c),
        }
        let r = write_string_step(out, self.url);
        assert(out@ =~= old(out)@ + link_write(*self).bytes);
        r
    }
}

/// Sends the server's links during configuration.
pub struct CConfigServerLinks<'a> {
    pub links: &'a [Link<'a>],
}

impl<'a> CConfigServerLinks<'a> {
    pub fn new(links: &'a [Link<'a>]) -> (r: Self)
        ensures
            r.links == links,
    {
        Self { links }
    }

    /// The packet's id in `version`; `listed_id` is the id that the
    /// generated packet table lists for `version`.
    pub fn to_id(version: JavaMinecraftVersion, listed_id: i32) -> (r: i32)
        ensures
            r == packet_id(version, 16, listed_id),
    {
        if version == JavaMinecraftVersion::V_26_2 {
            16
        } else {
            listed_id
        }
    }

    /// Appends the links as a counted list.
    pub fn write_packet_data(&self, out: &mut Vec<u8>, _version: &JavaMinecraftVersion) -> (r:
        Result<(), WritingError>)
        ensures
            final(out)@ == old(out)@ + counted_list_write(self.links@, link_writer()).bytes,
            r is Ok <==> counted_list_write(self.links@, link_writer()).ok,
            r is Err ==> r == Err::<(), WritingError>(WritingError::StringTooLong),
    {
        let ghost start = out@;
        let ghost links = self.links@;
        write_var_int(out, &VarInt(self.links.len() as i32));
        let ghost head = out@;
        let mut i: usize = 0;
        proof {
            assert(links.take(0) =~= Seq::<Link>::empty());
            assert(head + Seq::<u8>::empty() =~= head);
        }
        while i < self.links.len()
            invariant
                i <= links.len(),
                links == self.links@,
                start == old(out)@,
                head == start + var_int_bytes(links.len() as i32),
                list_write(links.take(i as int), link_writer()).ok,
                out@ == head + list_write(links.take(i as int), link_writer()).bytes,
            decreases links.len() - i,
        {
            proof {
                lemma_list_write_push(links.take(i as int), links[i as int], link_writer());
                assert(links.take(i as int).push(links[i as int]) =~= links.take(i + 1));
            }
            let r = self.links[i].write(out);
            assert(out@ =~= head + list_write(links.take(i + 1), link_writer()).bytes);
            if r.is_err() {
                proof {
                    lemma_list_write_stops(links, (i + 1) as nat, link_writer());
                }
                assert(out@ =~= start + counted_list_write(links, link_writer()).bytes);
                return r;
            }
            i = i + 1;
        }
        assert(links.take(i as int) =~= links);
        assert(out@ =~= start + counted_list_write(links, link_writer()).bytes);
        Ok(())
    }
}

} // verus!
