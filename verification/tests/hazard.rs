use concprim::hazard::{HazardBag, Shield};
use std::collections::HashSet;

const VALUES_START: usize = 1;
const VALUES_END: usize = 1024;

// `all_hazards` should return hazards protected by shield(s).
#[test]
fn all_hazards_protected() {
    let mut bag = HazardBag::new();
    let mut leaked: Vec<Shield> = Vec::new();
    for data in VALUES_START..VALUES_END {
        let src: usize = data;
        let shield = Shield::new(&mut bag);
        shield.protect(&mut bag, &src);
        // keep the shield so that the hazard stays published
        leaked.push(shield);
    }
    let all = bag.all_hazards();
    let values: HashSet<usize> = (VALUES_START..VALUES_END).collect();
    assert!(all.is_superset(&values));
}

// `all_hazards` should not return values that are no longer protected.
#[test]
fn all_hazards_unprotected() {
    let mut bag = HazardBag::new();
    for data in VALUES_START..VALUES_END {
        let src: usize = data;
        let shield = Shield::new(&mut bag);
        shield.protect(&mut bag, &src);
        shield.release(&mut bag);
    }
    let all = bag.all_hazards();
    let values: HashSet<usize> = (VALUES_START..VALUES_END).collect();
    let intersection: HashSet<&usize> = all.intersection(&values).collect();
    assert!(intersection.is_empty());
}

// `acquire_slot` should recycle existing slots.
#[test]
fn recycle_slots() {
    let mut bag = HazardBag::new();
    // allocate slots
    let mut shields: Vec<Shield> = Vec::new();
    for _ in 0..1024 {
        shields.push(Shield::new(&mut bag));
    }
    // slot identities
    let old_slots: HashSet<usize> = shields.iter().map(|s| s.slot_index()).collect();
    // release the slots
    for s in shields {
        s.release(&mut bag);
    }

    let mut shields: Vec<Shield> = Vec::new();
    for _ in 0..128 {
        shields.push(Shield::new(&mut bag));
    }
    let new_slots: HashSet<usize> = shields.iter().map(|s| s.slot_index()).collect();

    // no new slots should've been created
    assert!(new_slots.is_subset(&old_slots));
}

// `try_protect` validates against the source and reports a change.
#[test]
fn try_protect_validates() {
    let mut bag = HazardBag::new();
    let shield = Shield::new(&mut bag);
    let src: usize = 7;
    let mut pointer: usize = 7;
    assert!(shield.try_protect(&mut bag, &mut pointer, &src));
    assert_eq!(pointer, 7);
    let mut stale: usize = 9;
    assert!(!shield.try_protect(&mut bag, &mut stale, &src));
    assert_eq!(stale, 7);
}
