//! Receiving a policy as two files: the code that consumes a model, and the model.

use crate::hex::{all_hex, decode, decoded};
use crate::net::Net;
use crate::path::{extension, extension_of, join, joined, lies_in};
use crate::scan::{ascii_lowered, lowered, push_text, same_text, spells, text_of};
use vstd::prelude::*;

verus! {

/// The largest model that is taken, in bytes.
pub const MAX_SIZE: usize = 67_108_864;

/// The largest consumer that is taken, in bytes.
pub const MAX_POLICY: usize = 1_048_576;

/// The longest file name that is taken, in bytes.
pub const MAX_NAME: usize = 240;

/// The most hexadecimal digits in one chunk.
pub const MAX_CHUNK: usize = 16_384;

/// The name of a version whose consumer is the built-in one.
pub const DEFAULT_POLICY_LABEL: &'static str = "默认";

/// The least normalizer epsilon, one part in a million million, by its bit pattern.
pub const MIN_EPSILON: u64 = 0x3D71_9799_812D_EA11;

/// The greatest normalizer epsilon, one, by its bit pattern.
pub const MAX_EPSILON: u64 = 0x3FF0_0000_0000_0000;

/// The normalizer epsilon where none is given, a hundredth, by its bit pattern.
pub const DEFAULT_EPSILON: u64 = 0x3F84_7AE1_47AE_147B;

/// A slot that holds a policy: where it was configured, and under what key it is recorded.
pub struct Slot {
    pub key: String,
    pub path: String,
    pub net: Net,
}

/// What a slot says.
#[verifier::ext_equal]
pub struct SlotText {
    pub key: Seq<char>,
    pub path: Seq<char>,
    pub net: Net,
}

impl View for Slot {
    type V = SlotText;

    open spec fn view(&self) -> SlotText {
        SlotText { key: self.key@, path: self.path@, net: self.net }
    }
}

impl Slot {
    pub fn copy(&self) -> (slot: Slot)
        ensures
            slot@ == self@,
    {
        Slot { key: self.key.clone(), path: self.path.clone(), net: self.net }
    }
}

/// One of the two files, and how much of it has come.
pub struct Part {
    pub name: String,
    pub size: usize,
    pub received: usize,
    pub path: String,
}

/// An upload in progress.
pub struct Upload {
    pub token: String,
    pub slot: Slot,
    pub policy: Part,
    pub model: Part,
    pub activation: String,
    /// The bit pattern of the normalizer's epsilon.
    pub epsilon: u64,
}

/// Which of the two files.
#[derive(Debug, Clone, Copy, PartialEq, Eq, Structural)]
pub enum Role {
    Policy,
    Model,
}

impl Upload {
    /// No more has come of a file than it holds, and the files are no larger than allowed.
    pub open spec fn valid(self) -> bool {
        &&& self.policy.received <= self.policy.size <= MAX_POLICY
        &&& self.model.received <= self.model.size <= MAX_SIZE
    }

    pub open spec fn part(self, role: Role) -> Part {
        match role {
            Role::Policy => self.policy,
            Role::Model => self.model,
        }
    }

    /// How much has come of both.
    pub fn received(&self) -> (bytes: usize)
        requires
            self.valid(),
        ensures
            bytes == self.policy.received + self.model.received,
    {
        self.policy.received + self.model.received
    }

    /// Whether the model arrives ready to run.
    pub open spec fn ready(self) -> bool {
        extension(self.model.path@) == Some("onnx"@)
    }

    pub fn is_ready(&self) -> (yes: bool)
        ensures
            yes == self.ready(),
    {
        match extension_of(self.model.path.as_str()) {
            Some(ending) => spells(&ending, "onnx"),
            None => false,
        }
    }
}

/// What opens an upload.
pub struct Begin {
    pub slot: String,
    pub policy_filename: Option<String>,
    pub policy_size: Option<usize>,
    pub model_filename: String,
    pub model_size: usize,
    pub activation: Option<String>,
    /// The bit pattern of the normalizer's epsilon.
    pub epsilon: Option<u64>,
}

/// A file's ending, in lower case, or nothing.
pub open spec fn ending(filename: Seq<char>) -> Seq<char> {
    match extension(filename) {
        Some(e) => ascii_lowered(e),
        None => Seq::empty(),
    }
}

/// The endings a model can have.
pub open spec fn model_ending(e: Seq<char>) -> bool {
    e == "pt"@ || e == "pth"@ || e == "onnx"@
}

/// How many bytes a text takes.
pub open spec fn byte_len(text: Seq<char>) -> nat {
    vstd::utf8::encode_utf8(text).len()
}

/// The activation functions a network can have.
pub open spec fn known_activation(name: Seq<char>) -> bool {
    name == "elu"@ || name == "relu"@ || name == "tanh"@ || name == "selu"@ || name == "leaky_relu"@
}

impl Begin {
    pub open spec fn model_fits(self) -> bool {
        &&& model_ending(ending(self.model_filename@))
        &&& 0 < self.model_size <= MAX_SIZE
        &&& byte_len(self.model_filename@) <= MAX_NAME
    }

    pub open spec fn activation_name(self) -> Seq<char> {
        match self.activation {
            Some(name) => name@,
            None => "elu"@,
        }
    }

    pub open spec fn epsilon_bits(self) -> u64 {
        match self.epsilon {
            Some(bits) => bits,
            None => DEFAULT_EPSILON,
        }
    }

    /// Whether a consumer comes with the model.
    pub open spec fn custom(self) -> bool {
        self.policy_filename is Some
    }

    pub open spec fn policy_fits(self) -> bool {
        &&& extension(self.policy_filename->0@) == Some("py"@)
        &&& 0 < self.policy_size->0 <= MAX_POLICY
        &&& byte_len(self.policy_filename->0@) <= MAX_NAME
    }

    /// Why an upload cannot be opened, whatever it is for.
    pub open spec fn fault(self) -> Option<Seq<char>> {
        if !self.model_fits() {
            Some("模型须为 1 字节至 64 MiB 的 .pt/.pth/.onnx"@)
        } else if !known_activation(self.activation_name()) {
            Some("不支持的激活函数"@)
        } else if !(MIN_EPSILON <= self.epsilon_bits() <= MAX_EPSILON) {
            Some("归一化 epsilon 必须介于 1e-12 和 1"@)
        } else if self.policy_filename is Some != self.policy_size is Some {
            Some("策略文件名和大小必须同时提供；两者都省略时使用内置默认策略"@)
        } else if self.custom() && !self.policy_fits() {
            Some("策略文件须为 1 字节至 1 MiB 的 .py"@)
        } else {
            None
        }
    }

    fn model_is_fit(&self) -> (yes: bool)
        ensures
            yes == self.model_fits(),
    {
        let known = match extension_of(self.model_filename.as_str()) {
            Some(e) => {
                let e = lowered(&e);
                spells(&e, "pt") || spells(&e, "pth") || spells(&e, "onnx")
            },
            None => {
                proof {
                    reveal_strlit("pt");
                    reveal_strlit("pth");
                    reveal_strlit("onnx");
                    assert("pt"@.len() == 2 && "pth"@.len() == 3 && "onnx"@.len() == 4);
                }
                false
            },
        };
        known && self.model_size > 0 && self.model_size <= MAX_SIZE
            && self.model_filename.as_str().as_bytes().len() <= MAX_NAME
    }

    fn policy_is_fit(&self, filename: &String, size: usize) -> (yes: bool)
        requires
            self.policy_filename == Some(*filename),
            self.policy_size == Some(size),
        ensures
            yes == self.policy_fits(),
    {
        let known = match extension_of(filename.as_str()) {
            Some(e) => spells(&e, "py"),
            None => false,
        };
        known && size > 0 && size <= MAX_POLICY && filename.as_str().as_bytes().len() <= MAX_NAME
    }

    fn activation_is_known(&self) -> (yes: bool)
        ensures
            yes == known_activation(self.activation_name()),
    {
        match &self.activation {
            Some(name) => same_text(name.as_str(), "elu") || same_text(name.as_str(), "relu")
                || same_text(name.as_str(), "tanh") || same_text(name.as_str(), "selu") || same_text(
                name.as_str(),
                "leaky_relu",
            ),
            None => true,
        }
    }

    /// Looks an upload over before it is opened.
    pub fn check(&self) -> (fault: Option<&'static str>)
        ensures
            match fault {
                Some(why) => self.fault() == Some(why@),
                None => self.fault() is None,
            },
    {
        if !self.model_is_fit() {
            return Some("模型须为 1 字节至 64 MiB 的 .pt/.pth/.onnx");
        }
        if !self.activation_is_known() {
            return Some("不支持的激活函数");
        }
        let epsilon: u64 = match self.epsilon {
            Some(bits) => bits,
            None => DEFAULT_EPSILON,
        };
        if !(MIN_EPSILON <= epsilon && epsilon <= MAX_EPSILON) {
            return Some("归一化 epsilon 必须介于 1e-12 和 1");
        }
        match (&self.policy_filename, self.policy_size) {
            (None, None) => None,
            (Some(filename), Some(size)) => {
                if self.policy_is_fit(filename, size) {
                    None
                } else {
                    Some("策略文件须为 1 字节至 1 MiB 的 .py")
                }
            },
            _ => Some("策略文件名和大小必须同时提供；两者都省略时使用内置默认策略"),
        }
    }
}

/// Where an upload keeps the consumer while it comes in.
pub open spec fn policy_place(root: Seq<char>, token: Seq<char>) -> Seq<char> {
    joined(root, "upload-"@ + token + "-policy.py"@)
}

/// Where an upload keeps the model while it comes in.
pub open spec fn model_place(root: Seq<char>, token: Seq<char>, e: Seq<char>) -> Seq<char> {
    joined(root, "upload-"@ + token + "-model."@ + e)
}

/// Whether an upload is what a request opened, with a built-in consumer of `default_size` bytes.
pub open spec fn opened(
    upload: Upload,
    begin: Begin,
    slot: SlotText,
    root: Seq<char>,
    token: Seq<char>,
    default_size: nat,
) -> bool {
    &&& upload.token@ == token
    &&& upload.slot@ == slot
    &&& upload.policy.name@ == (if begin.custom() {
        begin.policy_filename->0@
    } else {
        DEFAULT_POLICY_LABEL@
    })
    &&& upload.policy.size == (if begin.custom() {
        begin.policy_size->0 as nat
    } else {
        default_size
    })
    &&& upload.policy.received == (if begin.custom() {
        0
    } else {
        default_size
    })
    &&& upload.policy.path@ == policy_place(root, token)
    &&& upload.model.name@ == begin.model_filename@
    &&& upload.model.size == begin.model_size
    &&& upload.model.received == 0
    &&& upload.model.path@ == model_place(root, token, ending(begin.model_filename@))
    &&& upload.activation@ == begin.activation_name()
    &&& upload.epsilon == begin.epsilon_bits()
}

/// The upload that a request opens.
pub fn open_upload(
    begin: &Begin,
    slot: &Slot,
    root: &str,
    token: &str,
    default_size: usize,
) -> (upload: Upload)
    requires
        begin.fault() is None,
        default_size <= MAX_POLICY,
    ensures
        upload.valid(),
        opened(upload, *begin, slot@, root@, token@, default_size as nat),
{
    let mut policy_path = String::new();
    push_text(&mut policy_path, "upload-");
    push_text(&mut policy_path, token);
    push_text(&mut policy_path, "-policy.py");
    proof {
        assert(policy_path@ =~= "upload-"@ + token@ + "-policy.py"@);
    }
    let mut model_path = String::new();
    push_text(&mut model_path, "upload-");
    push_text(&mut model_path, token);
    push_text(&mut model_path, "-model.");
    match extension_of(begin.model_filename.as_str()) {
        Some(e) => {
            let e = text_of(&lowered(&e));
            push_text(&mut model_path, e.as_str());
        },
        None => {},
    }
    proof {
        assert(model_path@ =~= "upload-"@ + token@ + "-model."@ + ending(begin.model_filename@));
    }
    let activation = match &begin.activation {
        Some(name) => name.clone(),
        None => "elu".to_owned(),
    };
    let epsilon: u64 = match begin.epsilon {
        Some(bits) => bits,
        None => DEFAULT_EPSILON,
    };
    let policy = match (&begin.policy_filename, begin.policy_size) {
        (Some(filename), Some(size)) => Part {
            name: filename.clone(),
            size,
            received: 0,
            path: join(root, policy_path.as_str()),
        },
        _ => Part {
            name: DEFAULT_POLICY_LABEL.to_owned(),
            size: default_size,
            received: default_size,
            path: join(root, policy_path.as_str()),
        },
    };
    Upload {
        token: token.to_owned(),
        slot: slot.copy(),
        policy,
        model: Part {
            name: begin.model_filename.clone(),
            size: begin.model_size,
            received: 0,
            path: join(root, model_path.as_str()),
        },
        activation,
        epsilon,
    }
}

/// Whether a text is one chunk of a file: some whole bytes, and not too many.
pub open spec fn chunk(hex: Seq<char>) -> bool {
    0 < hex.len() <= MAX_CHUNK && all_hex(hex)
}

/// The bytes of one chunk.
pub fn decode_chunk(hex: &str) -> (bytes: Result<Vec<u8>, String>)
    ensures
        match bytes {
            Ok(b) => chunk(hex@) && b@ == decoded(hex@),
            Err(why) => !chunk(hex@) && why@ == "无效上传分块（每块最多 8 KiB）"@,
        },
{
    match decode(hex) {
        Some(bytes) => {
            if bytes.len() == 0 || bytes.len() > MAX_CHUNK / 2 {
                Err("无效上传分块（每块最多 8 KiB）".to_owned())
            } else {
                Ok(bytes)
            }
        },
        None => Err("无效上传分块（每块最多 8 KiB）".to_owned()),
    }
}

/// Which file a chunk says it belongs to.
pub open spec fn role_of(file: Seq<char>) -> Option<Role> {
    if file == "policy"@ {
        Some(Role::Policy)
    } else if file == "model"@ {
        Some(Role::Model)
    } else {
        None
    }
}

pub fn parse_role(file: &str) -> (role: Option<Role>)
    ensures
        role == role_of(file@),
{
    if same_text(file, "policy") {
        Some(Role::Policy)
    } else if same_text(file, "model") {
        Some(Role::Model)
    } else {
        None
    }
}

impl Upload {
    /// Why a chunk is not taken.
    pub open spec fn chunk_fault(self, file: Seq<char>, offset: nat, hex: Seq<char>) -> Option<
        Seq<char>,
    > {
        match role_of(file) {
            None => Some("未知两文件上传角色"@),
            Some(role) => if !chunk(hex) {
                Some("无效上传分块（每块最多 8 KiB）"@)
            } else if offset != self.part(role).received || self.part(role).received
                + decoded(hex).len() > self.part(role).size {
                Some("上传偏移或文件大小不匹配，请重新选择两个文件导入"@)
            } else {
                None
            },
        }
    }

    /// Looks a chunk over: which file it continues, and with what bytes.
    pub fn accept(&self, file: &str, offset: usize, hex: &str) -> (accepted: Result<
        (Role, Vec<u8>),
        String,
    >)
        requires
            self.valid(),
        ensures
            match accepted {
                Ok((role, bytes)) => self.chunk_fault(file@, offset as nat, hex@) is None && role_of(
                    file@,
                ) == Some(role) && bytes@ == decoded(hex@),
                Err(why) => self.chunk_fault(file@, offset as nat, hex@) == Some(why@),
            },
    {
        let role = match parse_role(file) {
            Some(role) => role,
            None => {
                return Err("未知两文件上传角色".to_owned());
            },
        };
        let bytes = match decode_chunk(hex) {
            Ok(bytes) => bytes,
            Err(why) => {
                return Err(why);
            },
        };
        let (received, size): (usize, usize) = match role {
            Role::Policy => (self.policy.received, self.policy.size),
            Role::Model => (self.model.received, self.model.size),
        };
        if offset != received || bytes.len() > size - received {
            return Err("上传偏移或文件大小不匹配，请重新选择两个文件导入".to_owned());
        }
        Ok((role, bytes))
    }

    /// Notes that so many more bytes of a file have been stored.
    pub fn stored(&mut self, role: Role, bytes: usize)
        requires
            old(self).valid(),
            bytes <= old(self).part(role).size - old(self).part(role).received,
        ensures
            final(self).valid(),
            final(self).part(role).received == old(self).part(role).received + bytes,
            final(self).part(role).size == old(self).part(role).size,
            final(self).part(role).name == old(self).part(role).name,
            final(self).part(role).path == old(self).part(role).path,
            role == Role::Policy ==> final(self).model == old(self).model,
            role == Role::Model ==> final(self).policy == old(self).policy,
            final(self).token == old(self).token,
            final(self).slot == old(self).slot,
            final(self).activation == old(self).activation,
            final(self).epsilon == old(self).epsilon,
    {
        match role {
            Role::Policy => {
                self.policy.received = self.policy.received + bytes;
            },
            Role::Model => {
                self.model.received = self.model.received + bytes;
            },
        }
    }
}

/// A chunk is taken once: when its bytes have been stored, the same chunk is out of place.
pub proof fn a_chunk_is_taken_once(
    before: Upload,
    after: Upload,
    role: Role,
    file: Seq<char>,
    offset: nat,
    hex: Seq<char>,
)
    requires
        role_of(file) == Some(role),
        before.chunk_fault(file, offset, hex) is None,
        after.part(role).received == before.part(role).received + decoded(hex).len(),
    ensures
        after.chunk_fault(file, offset, hex) is Some,
{
}

/// How long a file on disk was found to be, or why that could not be told.
pub open spec fn part_fault(part: Part, found: Result<u64, String>) -> Option<Seq<char>> {
    if part.received != part.size {
        Some("两个文件未上传完整"@)
    } else {
        match found {
            Err(why) => Some(why@),
            Ok(len) => if len != part.size {
                Some("两个文件未上传完整"@)
            } else {
                None
            },
        }
    }
}

/// Whether one of the two files has come whole.
pub fn check_part(part: &Part, found: &Result<u64, String>) -> (fault: Option<String>)
    ensures
        match fault {
            Some(why) => part_fault(*part, *found) == Some(why@),
            None => part_fault(*part, *found) is None,
        },
{
    if part.received != part.size {
        return Some("两个文件未上传完整".to_owned());
    }
    match found {
        Err(why) => Some(why.clone()),
        Ok(len) => if *len != part.size as u64 {
            Some("两个文件未上传完整".to_owned())
        } else {
            None
        },
    }
}

/// An upload can be opened for a model of one of three kinds and of at most sixty-four mebibytes, with
/// an activation that is known and an epsilon that is neither too small nor above one; and where a
/// consumer comes with it, for a program of at most one mebibyte. A name and a size come together or not
/// at all, and a name takes at most two hundred and forty bytes.
pub proof fn what_can_be_uploaded(begin: Begin)
    ensures
        begin.fault() is None <==> {
            &&& ending(begin.model_filename@) == "pt"@ || ending(begin.model_filename@) == "pth"@ || ending(
                begin.model_filename@,
            ) == "onnx"@
            &&& 1 <= begin.model_size <= 67_108_864
            &&& byte_len(begin.model_filename@) <= 240
            &&& begin.activation matches Some(name) ==> name@ == "elu"@ || name@ == "relu"@ || name@ == "tanh"@
                || name@ == "selu"@ || name@ == "leaky_relu"@
            &&& begin.epsilon matches Some(bits) ==> 0x3D71_9799_812D_EA11 <= bits <= 0x3FF0_0000_0000_0000
            &&& begin.policy_filename is Some <==> begin.policy_size is Some
            &&& begin.policy_filename matches Some(name) ==> {
                &&& extension(name@) == Some("py"@)
                &&& 1 <= begin.policy_size->0 <= 1_048_576
                &&& byte_len(name@) <= 240
            }
        },
{
}

/// What a request leaves open: the activation is then `elu`, and the consumer the one built in.
pub proof fn what_is_assumed(begin: Begin)
    ensures
        begin.activation is None ==> begin.activation_name() == "elu"@,
        begin.activation matches Some(name) ==> begin.activation_name() == name@,
        begin.epsilon is None ==> begin.epsilon_bits() == 0x3F84_7AE1_47AE_147B,
        begin.epsilon matches Some(bits) ==> begin.epsilon_bits() == bits,
        begin.custom() <==> begin.policy_filename is Some,
{
}

/// A chunk is taken where it continues its file: whole bytes, at most eight kibibytes, that begin where
/// the last ended and do not run past the end.
pub proof fn which_chunks_are_taken(upload: Upload, file: Seq<char>, offset: nat, hex: Seq<char>)
    ensures
        upload.chunk_fault(file, offset, hex) is None <==> {
            let part = if file == "policy"@ {
                upload.policy
            } else {
                upload.model
            };
            &&& file == "policy"@ || file == "model"@
            &&& 0 < hex.len() <= 16_384
            &&& all_hex(hex)
            &&& offset == part.received
            &&& offset + hex.len() / 2 <= part.size
        },
{
}

/// A file has come whole where all of it was received and the disk has as much.
pub proof fn when_a_file_is_whole(part: Part, found: Result<u64, String>)
    ensures
        part_fault(part, found) is None <==> part.received == part.size && (found matches Ok(len) && len
            == part.size),
{
}

/// An upload begins with nothing of the model, and with nothing of a consumer that is to come; a built-in
/// one is there at once.
pub proof fn how_an_upload_begins(
    upload: Upload,
    begin: Begin,
    slot: SlotText,
    root: Seq<char>,
    token: Seq<char>,
    default_size: nat,
)
    requires
        opened(upload, begin, slot, root, token, default_size),
    ensures
        upload.model.received == 0,
        upload.model.size == begin.model_size,
        upload.model.name@ == begin.model_filename@,
        begin.policy_filename matches Some(name) ==> upload.policy.received == 0 && upload.policy.size
            == begin.policy_size->0 && upload.policy.name@ == name@,
        begin.policy_filename is None ==> upload.policy.received == upload.policy.size && upload.policy.size
            == default_size,
        upload.token@ == token,
        upload.slot@ == slot,
{
}

proof fn lemma_no_slash(a: Seq<char>, b: Seq<char>)
    requires
        forall|i: int| 0 <= i < a.len() ==> #[trigger] a[i] != '/',
        forall|i: int| 0 <= i < b.len() ==> #[trigger] b[i] != '/',
    ensures
        forall|i: int| 0 <= i < (a + b).len() ==> #[trigger] (a + b)[i] != '/',
{
    assert forall|i: int| 0 <= i < (a + b).len() implies #[trigger] (a + b)[i] != '/' by {
        if i < a.len() {
            assert((a + b)[i] == a[i]);
        } else {
            assert((a + b)[i] == b[i - a.len()]);
        }
    }
}

/// An upload's files lie in the store, apart from each other, and the model keeps its ending: what was
/// named as ready to run is.
pub proof fn where_an_upload_is_kept(root: Seq<char>, token: Seq<char>, e: Seq<char>)
    requires
        forall|i: int| 0 <= i < token.len() ==> #[trigger] token[i] != '/',
        model_ending(e),
    ensures
        lies_in(policy_place(root, token), root),
        lies_in(model_place(root, token, e), root),
        extension(model_place(root, token, e)) == Some(e),
        extension(policy_place(root, token)) == Some("py"@),
        policy_place(root, token) != model_place(root, token, e),
{
    reveal_strlit("upload-");
    reveal_strlit("-policy.py");
    reveal_strlit("-model.");
    reveal_strlit("pt");
    reveal_strlit("pth");
    reveal_strlit("onnx");
    reveal_strlit("py");
    reveal_strlit("-policy");
    reveal_strlit("-model");
    let front = "upload-"@ + token;
    lemma_no_slash("upload-"@, token);
    lemma_no_slash(front, "-policy.py"@);
    lemma_no_slash(front, "-model."@);
    lemma_no_slash(front + "-model."@, e);
    let policy = front + "-policy.py"@;
    let model = front + "-model."@ + e;
    assert(policy.len() > 2 && model.len() > 2);
    crate::path::a_joined_name_lies_in_its_directory(root, policy);
    crate::path::a_joined_name_lies_in_its_directory(root, model);
    assert(policy =~= (front + "-policy"@) + seq!['.'] + "py"@);
    assert(model =~= (front + "-model"@) + seq!['.'] + e);
    assert forall|i: int| 0 <= i < e.len() implies #[trigger] e[i] != '.' by {}
    crate::path::what_follows_the_last_dot(policy_place(root, token), front + "-policy"@, "py"@);
    crate::path::what_follows_the_last_dot(model_place(root, token, e), front + "-model"@, e);
    assert("py"@[1] == 'y');
    assert(e != "py"@) by {
        if e == "pt"@ {
            assert("pt"@[1] == 't');
        }
    }
}

/// A file is called by its role, and nothing else is one.
pub proof fn what_a_role_is_called(file: Seq<char>)
    ensures
        role_of(file) == Some(Role::Policy) <==> file == "policy"@,
        role_of(file) == Some(Role::Model) <==> file == "model"@,
        "policy"@ != "model"@,
{
    reveal_strlit("policy");
    reveal_strlit("model");
    assert("policy"@.len() == 6 && "model"@.len() == 5);
}

} // verus!
