//! Enemy definitions: the frame ranges of their sprite animations.
use vstd::prelude::*;

use bevy::platform::collections::HashMap;

use crate::animation::{Animation, NANOS_PER_MILLI};

verus! {

/// A sprite animation of an enemy's atlas: frames `start..end`, each `frame_millis` long.
#[derive(Clone, Copy, Debug, PartialEq, Eq, Structural, Hash)]
pub struct EnemyAnimation {
    pub start: usize,
    pub end: usize,
    pub frame_millis: u32,
}

/// The named animations of an enemy's atlas.
pub uninterp spec fn named_animations(m: HashMap<String, EnemyAnimation>) -> Map<
    Seq<char>,
    EnemyAnimation,
>;

/// Relies on `bevy::platform::collections::HashMap::get` with a `String` key looked up by `&str`:
/// the animation stored under the name, if any.
#[verifier::external_body]
fn animation_named(m: &HashMap<String, EnemyAnimation>, name: &str) -> (r: Option<EnemyAnimation>)
    ensures
        r == if named_animations(*m).contains_key(name@) {
            Some(named_animations(*m)[name@])
        } else {
            None
        },
{
    m.get(name).copied()
}

/// The animation shows frames `e.start..e.end` in order, each for `e.frame_millis`
/// milliseconds, without markers.
pub open spec fn plays(a: Animation, e: EnemyAnimation) -> bool {
    &&& a.frames@.len() == if e.start <= e.end {
        e.end - e.start
    } else {
        0
    }
    &&& forall|i: int|
        0 <= i < a.frames@.len() ==> (#[trigger] a.frames@[i]).index == e.start + i
            && a.frames@[i].duration == e.frame_millis * NANOS_PER_MILLI
            && a.frames@[i].markers@.len() == 0
}

/// The animation of the atlas named `name`, if the enemy has one.
pub fn load_animation(atlas_animations: &HashMap<String, EnemyAnimation>, name: &str) -> (r:
    Option<Animation>)
    ensures
        named_animations(*atlas_animations).contains_key(name@) <==> r is Some,
        r matches Some(a) ==> plays(a, named_animations(*atlas_animations)[name@]),
{
    match animation_named(atlas_animations, name) {
        Some(anim) => Some(
            Animation::from_frame_range_and_millis(anim.start..anim.end, anim.frame_millis as u64),
        ),
        None => None,
    }
}

/// The five animations every enemy has.
pub struct EnemyAnimations {
    pub idle: Animation,
    pub walk: Animation,
    pub jump: Animation,
    pub peak: Animation,
    pub fall: Animation,
}

/// The name of the first of `idle`, `walk`, `jump`, `peak` and `fall` the enemy lacks, if any.
pub open spec fn first_missing(m: Map<Seq<char>, EnemyAnimation>) -> Option<Seq<char>> {
    if !m.contains_key("idle"@) {
        Some("idle"@)
    } else if !m.contains_key("walk"@) {
        Some("walk"@)
    } else if !m.contains_key("jump"@) {
        Some("jump"@)
    } else if !m.contains_key("peak"@) {
        Some("peak"@)
    } else if !m.contains_key("fall"@) {
        Some("fall"@)
    } else {
        None
    }
}

/// The enemy's five animations; fails with the name of the first one missing.
pub fn load_enemy_animations(atlas_animations: &HashMap<String, EnemyAnimation>) -> (r: Result<
    EnemyAnimations,
    String,
>)
    ensures
        match first_missing(named_animations(*atlas_animations)) {
            Some(name) => r matches Err(n) && n@ == name,
            None => r is Ok,
        },
        r matches Ok(a) ==> {
            let m = named_animations(*atlas_animations);
            &&& plays(a.idle, m["idle"@])
            &&& plays(a.walk, m["walk"@])
            &&& plays(a.jump, m["jump"@])
            &&& plays(a.peak, m["peak"@])
            &&& plays(a.fall, m["fall"@])
        },
{
    let idle = match load_animation(atlas_animations, "idle") {
        Some(a) => a,
        None => {
            return Err("idle".to_owned());
        },
    };
    let walk = match load_animation(atlas_animations, "walk") {
        Some(a) => a,
        None => {
            return Err("walk".to_owned());
        },
    };
    let jump = match load_animation(atlas_animations, "jump") {
        Some(a) => a,
        None => {
            return Err("jump".to_owned());
        },
    };
    let peak = match load_animation(atlas_animations, "peak") {
        Some(a) => a,
        None => {
            return Err("peak".to_owned());
        },
    };
    let fall = match load_animation(atlas_animations, "fall") {
        Some(a) => a,
        None => {
            return Err("fall".to_owned());
        },
    };
    Ok(EnemyAnimations { idle, walk, jump, peak, fall })
}

} // verus!
