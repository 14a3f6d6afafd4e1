use vstd::prelude::*;
use vstd::string::*;

use std::convert::Infallible;

use crate::json::{members_view, parse_json, render_json, same_chars, DecodeError, Json, json_document, json_rebuilt, json_text, json_within, MAX_JSON_DEPTH, JsonView};
use crate::model::{GenerateResult, SettingsModel};
use crate::plugin::BottlerocketDefaults;

verus! {

/// Settings of the NVIDIA container runtime.
#[derive(Debug, PartialEq, Eq, Structural, Clone, Copy)]
pub struct NvidiaContainerRuntimeSettingsV1 {
    pub visible_devices_as_volume_mounts: Option<bool>,
    pub visible_devices_envvar_when_unprivileged: Option<bool>,
}

impl Default for NvidiaContainerRuntimeSettingsV1 {
    fn default() -> (r: Self)
        ensures
            r == Self::empty(),
    {
        NvidiaContainerRuntimeSettingsV1 {
            visible_devices_as_volume_mounts: None,
            visible_devices_envvar_when_unprivileged: None,
        }
    }
}

impl BottlerocketDefaults for NvidiaContainerRuntimeSettingsV1 {
    open spec fn is_default_value(v: Self) -> bool {
        v == Self::empty()
    }

    fn defaults() -> (r: Self) {
        Self::default()
    }
}

impl NvidiaContainerRuntimeSettingsV1 {
    /// The value with no field set.
    pub open spec fn empty() -> Self {
        NvidiaContainerRuntimeSettingsV1 {
            visible_devices_as_volume_mounts: None,
            visible_devices_envvar_when_unprivileged: None,
        }
    }
}

impl SettingsModel for NvidiaContainerRuntimeSettingsV1 {
    type PartialKind = Self;

    type ErrorKind = Infallible;

    open spec fn version_tag() -> Seq<char> {
        seq!['v', '1']
    }

    open spec fn generates(
        existing_partial: Option<Self>,
        dependent_settings: Option<serde_json::Value>,
        r: Result<GenerateResult<Self, Self>, Infallible>,
    ) -> bool {
        r == Ok::<_, Infallible>(
            GenerateResult::<Self, Self>::Complete(existing_partial.unwrap_or(Self::empty())),
        )
    }

    open spec fn accepts(current_value: Option<Self>, target: Self) -> bool {
        true
    }

    open spec fn is_valid(value: Self, validated_settings: Option<serde_json::Value>) -> bool {
        true
    }

    fn get_version() -> (r: &'static str) {
        proof {
            reveal_strlit("v1");
        }
        "v1"
    }

    fn set(current_value: Option<Self>, target: Self) -> (r: Result<(), Infallible>) {
        Ok(())
    }

    fn generate(existing_partial: Option<Self>, dependent_settings: Option<serde_json::Value>) -> (r:
        Result<GenerateResult<Self, Self>, Infallible>) {
        match existing_partial {
            Some(p) => Ok(GenerateResult::Complete(p)),
            None => Ok(GenerateResult::Complete(Self::default())),
        }
    }

    fn validate(value: Self, validated_settings: Option<serde_json::Value>) -> (r: Result<
        (),
        Infallible,
    >) {
        Ok(())
    }
}

/// The member that holds `visible_devices_as_volume_mounts`.
pub open spec fn volume_mounts_key() -> Seq<char> {
    "visible-devices-as-volume-mounts"@
}

/// The member that holds `visible_devices_envvar_when_unprivileged`.
pub open spec fn envvar_key() -> Seq<char> {
    "visible-devices-envvar-when-unprivileged"@
}

/// An optional boolean as JSON holds it: `null` is a missing value.
pub open spec fn optional_bool(v: JsonView) -> Option<Option<bool>> {
    match v {
        JsonView::Null => Some(None),
        JsonView::Bool(b) => Some(Some(b)),
        _ => None,
    }
}

/// `acc` with the member `key: v` read into it; `None` when the member is
/// unknown or not a boolean.
pub open spec fn nvidia_member(acc: NvidiaContainerRuntimeSettingsV1, key: Seq<char>, v: JsonView) -> Option<
    NvidiaContainerRuntimeSettingsV1,
> {
    match optional_bool(v) {
        None => None,
        Some(b) => if key == volume_mounts_key() {
            Some(NvidiaContainerRuntimeSettingsV1 { visible_devices_as_volume_mounts: b, ..acc })
        } else if key == envvar_key() {
            Some(NvidiaContainerRuntimeSettingsV1 { visible_devices_envvar_when_unprivileged: b, ..acc })
        } else {
            None
        },
    }
}

/// The settings that the members `m` describe, read in order.
pub open spec fn nvidia_members(m: Seq<(Seq<char>, JsonView)>) -> Option<NvidiaContainerRuntimeSettingsV1>
    decreases m.len(),
{
    if m.len() == 0 {
        Some(NvidiaContainerRuntimeSettingsV1::empty())
    } else {
        match nvidia_members(m.drop_last()) {
            Some(acc) => nvidia_member(acc, m.last().0, m.last().1),
            None => None,
        }
    }
}

/// The settings that a JSON document describes, if it describes any.
pub open spec fn nvidia_of_json(j: JsonView) -> Option<NvidiaContainerRuntimeSettingsV1> {
    match j {
        JsonView::Object(m) => nvidia_members(m),
        _ => None,
    }
}

/// The members that hold the fields of `v` that are set.
pub open spec fn nvidia_members_of(v: NvidiaContainerRuntimeSettingsV1) -> Seq<(Seq<char>, JsonView)> {
    let first: Seq<(Seq<char>, JsonView)> = match v.visible_devices_as_volume_mounts {
        Some(b) => seq![(volume_mounts_key(), JsonView::Bool(b))],
        None => Seq::empty(),
    };
    match v.visible_devices_envvar_when_unprivileged {
        Some(b) => first.push((envvar_key(), JsonView::Bool(b))),
        None => first,
    }
}

/// Once a prefix of the members is refused, so are all of them.
proof fn lemma_nvidia_refusal_extends(m: Seq<(Seq<char>, JsonView)>, i: int)
    requires
        0 <= i <= m.len(),
        nvidia_members(m.take(i)) is None,
    ensures
        nvidia_members(m) is None,
    decreases m.len() - i,
{
    if i < m.len() {
        assert(m.take(i + 1).drop_last() =~= m.take(i));
        lemma_nvidia_refusal_extends(m, i + 1);
    } else {
        assert(m.take(i) =~= m);
    }
}

impl NvidiaContainerRuntimeSettingsV1 {
    /// Reads the settings from a JSON object whose members are named in
    /// kebab case; a missing or `null` member leaves its field unset.
    pub fn from_json(j: &Json) -> (r: Result<Self, DecodeError>)
        ensures
            r matches Ok(v) ==> nvidia_of_json(j@) == Some(v),
            r is Err <==> nvidia_of_json(j@) is None,
    {
        let members = match j {
            Json::Object(members) => members,
            _ => {
                return Err(DecodeError::UnexpectedShape);
            },
        };
        let ghost m = members_view(members@);
        let mut acc = Self::default();
        let mut i: usize = 0;
        while i < members.len()
            invariant
                m == members_view(members@),
                j@ == JsonView::Object(m),
                i <= members@.len(),
                nvidia_members(m.take(i as int)) == Some(acc),
            decreases members@.len() - i,
        {
            let (k, v) = &members[i];
            assert(m.take(i + 1).drop_last() =~= m.take(i as int));
            assert(m[i as int] == (k@, v@));
            let b = match v {
                Json::Null => None,
                Json::Bool(b) => Some(*b),
                _ => {
                    proof {
                        lemma_nvidia_refusal_extends(m, i + 1);
                    }
                    return Err(DecodeError::UnexpectedShape);
                },
            };
            if same_chars(k.as_str(), "visible-devices-as-volume-mounts") {
                acc.visible_devices_as_volume_mounts = b;
            } else if same_chars(k.as_str(), "visible-devices-envvar-when-unprivileged") {
                acc.visible_devices_envvar_when_unprivileged = b;
            } else {
                proof {
                    lemma_nvidia_refusal_extends(m, i + 1);
                }
                return Err(DecodeError::UnknownField { name: k.clone() });
            }
            i = i + 1;
        }
        assert(m.take(m.len() as int) =~= m);
        Ok(acc)
    }

    /// The JSON object of these settings: one member for each field that is
    /// set, named in kebab case.
    pub fn to_json(&self) -> (r: Json)
        ensures
            r@ == JsonView::Object(nvidia_members_of(*self)),
    {
        let mut members: Vec<(String, Json)> = Vec::new();
        if let Some(b) = self.visible_devices_as_volume_mounts {
            members.push(("visible-devices-as-volume-mounts".to_string(), Json::Bool(b)));
        }
        let ghost first = members_view(members@);
        if let Some(b) = self.visible_devices_envvar_when_unprivileged {
            members.push(("visible-devices-envvar-when-unprivileged".to_string(), Json::Bool(b)));
            assert(members_view(members@) =~= first.push((envvar_key(), JsonView::Bool(b))));
        }
        assert(members_view(members@) =~= nvidia_members_of(*self));
        Json::Object(members)
    }

    /// Reads the settings from JSON text: the text must be a JSON document,
    /// nested at most `MAX_JSON_DEPTH` levels deep, that the schema accepts.
    pub fn deserialize(text: &str) -> (r: Result<Self, DecodeError>)
        ensures
            r matches Ok(v) ==> (json_document(text@) matches Some(j) && nvidia_of_json(j) == Some(v)),
            r is Ok <==> (json_document(text@) matches Some(j) && json_within(j, MAX_JSON_DEPTH as nat)
                && nvidia_of_json(j) is Some),
    {
        match parse_json(text) {
            Ok(j) => Self::from_json(&j),
            Err(e) => Err(DecodeError::Json(e)),
        }
    }

    /// Renders the settings as JSON text.
    pub fn serialize(&self) -> (r: String)
        ensures
            r@ == json_text(json_rebuilt(JsonView::Object(nvidia_members_of(*self)))),
    {
        render_json(self.to_json())
    }
}

/// Reading back what the NVIDIA runtime settings write gives the same
/// settings.
pub proof fn lemma_nvidia_round_trip(v: NvidiaContainerRuntimeSettingsV1)
    ensures
        nvidia_of_json(JsonView::Object(nvidia_members_of(v))) == Some(v),
{
    let m = nvidia_members_of(v);
    reveal_strlit("visible-devices-as-volume-mounts");
    reveal_strlit("visible-devices-envvar-when-unprivileged");
    assert(volume_mounts_key()[16] != envvar_key()[16]);
    let empty = Seq::<(Seq<char>, JsonView)>::empty();
    let e = NvidiaContainerRuntimeSettingsV1::empty();
    assert(nvidia_members(empty) == Some(e));
    match (v.visible_devices_as_volume_mounts, v.visible_devices_envvar_when_unprivileged) {
        (Some(a), Some(b)) => {
            let m1 = seq![(volume_mounts_key(), JsonView::Bool(a))];
            assert(m1.drop_last() =~= empty);
            assert(m.drop_last() =~= m1);
            assert(nvidia_members(m1) == Some(
                NvidiaContainerRuntimeSettingsV1 { visible_devices_as_volume_mounts: Some(a), ..e },
            ));
        },
        (Some(a), None) => {
            assert(m.drop_last() =~= empty);
        },
        (None, Some(b)) => {
            assert(m.drop_last() =~= empty);
        },
        (None, None) => {
            assert(m =~= empty);
        },
    }
}

/// Producing the defaults of the NVIDIA runtime settings is repeatable:
/// with nothing known, every call completes with the value that has no field
/// set.
pub proof fn lemma_nvidia_generate_repeatable(
    r1: Result<GenerateResult<NvidiaContainerRuntimeSettingsV1, NvidiaContainerRuntimeSettingsV1>, Infallible>,
    r2: Result<GenerateResult<NvidiaContainerRuntimeSettingsV1, NvidiaContainerRuntimeSettingsV1>, Infallible>,
)
    requires
        call_ensures(NvidiaContainerRuntimeSettingsV1::generate, (None, None), r1),
        call_ensures(NvidiaContainerRuntimeSettingsV1::generate, (None, None), r2),
    ensures
        r1 == r2,
        r1 == Ok::<_, Infallible>(GenerateResult::<NvidiaContainerRuntimeSettingsV1, _>::Complete(
            NvidiaContainerRuntimeSettingsV1::empty(),
        )),
{
}

} // verus!
