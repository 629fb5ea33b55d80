use vstd::prelude::*;
use crate::hitable::{hit_view, HitM, HitRecord, Hitable};
use crate::ray::{Ray, RayM};
use crate::scalar::Scalar;
use crate::sphere::{
    lemma_sphere_hit_in_window, lemma_sphere_hit_narrowed, lemma_sphere_hit_normal_opposes,
    sphere_hit, Sphere, SphereM,
};

verus! {

/// Upper bound of the window in which the scan looks on: the parameter of
/// the best hit so far, or the caller's bound while there is none.
pub open spec fn scan_bound(best: Option<HitM>, t_max: int) -> int {
    match best {
        Some(h) => h.t,
        None => t_max,
    }
}

/// The hit that a scan of the shapes in their order reports: each shape is
/// asked with the window narrowed to the best hit before it, and a hit that
/// it reports takes the place of that one.
pub open spec fn list_hit(spheres: Seq<SphereM>, r: RayM, t_min: int, t_max: int) -> Option<HitM>
    decreases spheres.len(),
{
    if spheres.len() == 0 {
        None
    } else {
        let before = list_hit(spheres.drop_last(), r, t_min, t_max);
        match sphere_hit(spheres.last(), r, t_min, scan_bound(before, t_max)) {
            Some(h) => Some(h),
            None => before,
        }
    }
}

/// `h` is the hit of shape `i` in the window, no shape is struck nearer, and
/// no shape before `i` is struck as near.
pub open spec fn is_first_nearest(
    spheres: Seq<SphereM>,
    r: RayM,
    t_min: int,
    t_max: int,
    i: int,
    h: HitM,
) -> bool {
    &&& 0 <= i < spheres.len()
    &&& sphere_hit(spheres[i], r, t_min, t_max) == Some(h)
    &&& forall|j: int|
        0 <= j < spheres.len() ==> (#[trigger] sphere_hit(spheres[j], r, t_min, t_max) matches Some(
            g,
        ) ==> h.t < g.t || (h.t == g.t && i <= j))
}

/// No shape is struck in the window.
pub open spec fn all_miss(spheres: Seq<SphereM>, r: RayM, t_min: int, t_max: int) -> bool {
    forall|j: int|
        0 <= j < spheres.len() ==> (#[trigger] sphere_hit(spheres[j], r, t_min, t_max)) is None
}

/// The scan reports the globally nearest hit, whatever the order of the
/// shapes: nothing exactly when no shape is struck in the window, and else
/// the hit of the first among the shapes that are struck nearest.
pub proof fn lemma_list_hit_nearest(spheres: Seq<SphereM>, r: RayM, t_min: int, t_max: int)
    ensures
        match list_hit(spheres, r, t_min, t_max) {
            Some(h) => exists|i: int| is_first_nearest(spheres, r, t_min, t_max, i, h),
            None => all_miss(spheres, r, t_min, t_max),
        },
    decreases spheres.len(),
{
    if spheres.len() > 0 {
        let front = spheres.drop_last();
        let last = spheres.len() - 1;
        let before = list_hit(front, r, t_min, t_max);
        lemma_list_hit_nearest(front, r, t_min, t_max);
        assert forall|j: int| 0 <= j < front.len() implies front[j] == spheres[j] by {}
        match before {
            Some(b) => {
                let i = choose|i: int| is_first_nearest(front, r, t_min, t_max, i, b);
                lemma_sphere_hit_in_window(front[i], r, t_min, t_max);
                lemma_sphere_hit_narrowed(spheres[last], r, t_min, t_max, b.t);
                match sphere_hit(spheres[last], r, t_min, b.t) {
                    Some(h) => {
                        assert forall|j: int| 0 <= j < spheres.len() implies (
                        #[trigger] sphere_hit(spheres[j], r, t_min, t_max) matches Some(g) ==> h.t
                            < g.t || (h.t == g.t && last <= j)) by {
                            if j < last {
                                assert(sphere_hit(front[j], r, t_min, t_max) == sphere_hit(
                                    spheres[j],
                                    r,
                                    t_min,
                                    t_max,
                                ));
                            }
                        }
                        assert(is_first_nearest(spheres, r, t_min, t_max, last, h));
                    },
                    None => {
                        assert forall|j: int| 0 <= j < spheres.len() implies (
                        #[trigger] sphere_hit(spheres[j], r, t_min, t_max) matches Some(g) ==> b.t
                            < g.t || (b.t == g.t && i <= j)) by {
                            if j < last {
                                assert(sphere_hit(front[j], r, t_min, t_max) == sphere_hit(
                                    spheres[j],
                                    r,
                                    t_min,
                                    t_max,
                                ));
                            }
                        }
                        assert(is_first_nearest(spheres, r, t_min, t_max, i, b));
                    },
                }
            },
            None => {
                match sphere_hit(spheres[last], r, t_min, t_max) {
                    Some(h) => {
                        assert forall|j: int| 0 <= j < spheres.len() implies (
                        #[trigger] sphere_hit(spheres[j], r, t_min, t_max) matches Some(g) ==> h.t
                            < g.t || (h.t == g.t && last <= j)) by {
                            if j < last {
                                assert(sphere_hit(front[j], r, t_min, t_max) is None);
                            }
                        }
                        assert(is_first_nearest(spheres, r, t_min, t_max, last, h));
                    },
                    None => {
                        assert forall|j: int| 0 <= j < spheres.len() implies (
                        #[trigger] sphere_hit(spheres[j], r, t_min, t_max)) is None by {
                            if j < last {
                                assert(sphere_hit(front[j], r, t_min, t_max) is None);
                            }
                        }
                    },
                }
            },
        }
    }
}

/// The order of the shapes does not change how near the reported hit is:
/// two lists of the same shapes report hits at the same parameter, or both
/// report none.
pub proof fn lemma_list_hit_ignores_order(
    a: Seq<SphereM>,
    b: Seq<SphereM>,
    r: RayM,
    t_min: int,
    t_max: int,
)
    requires
        forall|s: SphereM| a.contains(s) <==> b.contains(s),
    ensures
        match (list_hit(a, r, t_min, t_max), list_hit(b, r, t_min, t_max)) {
            (Some(h), Some(g)) => h.t == g.t,
            (None, None) => true,
            _ => false,
        },
{
    lemma_list_hit_nearest(a, r, t_min, t_max);
    lemma_list_hit_nearest(b, r, t_min, t_max);
    if let Some(h) = list_hit(a, r, t_min, t_max) {
        let i = choose|i: int| is_first_nearest(a, r, t_min, t_max, i, h);
        assert(a.contains(a[i]));
        let j = choose|j: int| 0 <= j < b.len() && b[j] == a[i];
        assert(sphere_hit(b[j], r, t_min, t_max) == Some(h));
    }
    if let Some(g) = list_hit(b, r, t_min, t_max) {
        let j = choose|j: int| is_first_nearest(b, r, t_min, t_max, j, g);
        assert(b.contains(b[j]));
        let i = choose|i: int| 0 <= i < a.len() && a[i] == b[j];
        assert(sphere_hit(a[i], r, t_min, t_max) == Some(g));
    }
}

/// The shapes of a scene, in the order in which they were added.
#[derive(Debug)]
pub struct HitableList {
    objects: Vec<Sphere>,
}

impl View for HitableList {
    type V = Seq<SphereM>;

    closed spec fn view(&self) -> Seq<SphereM> {
        Seq::new(self.objects@.len(), |i: int| self.objects@[i]@)
    }
}

impl HitableList {
    /// A scene without shapes.
    pub fn new() -> (r: HitableList)
        ensures
            r@ == Seq::<SphereM>::empty(),
    {
        let r = HitableList { objects: Vec::new() };
        assert(r@ =~= Seq::<SphereM>::empty());
        r
    }

    /// Adds a shape after those that the scene holds.
    pub fn push(&mut self, object: Sphere)
        ensures
            final(self)@ == old(self)@.push(object@),
    {
        self.objects.push(object);
        assert(self@ =~= old(self)@.push(object@));
    }

    /// The number of shapes.
    pub fn len(&self) -> (r: usize)
        ensures
            r == self@.len(),
    {
        self.objects.len()
    }
}

impl Hitable for HitableList {
    open spec fn hit_spec(&self, r: RayM, t_min: int, t_max: int) -> Option<HitM> {
        list_hit(self@, r, t_min, t_max)
    }

    fn hit(&self, r: &Ray, t_min: Scalar, t_max: Scalar) -> (res: Option<HitRecord>)
        ensures
            match hit_view(res) {
                Some(h) => exists|i: int| is_first_nearest(self@, r@, t_min@, t_max@, i, h),
                None => all_miss(self@, r@, t_min@, t_max@),
            },
    {
        let mut aux_hit_record: Option<HitRecord> = None;
        let mut closest_so_far: Scalar = t_max;
        let mut i: usize = 0;
        assert(self@.take(0) =~= Seq::<SphereM>::empty());
        while i < self.objects.len()
            invariant
                i <= self.objects.len(),
                self@.len() == self.objects.len(),
                hit_view(aux_hit_record) == list_hit(self@.take(i as int), r@, t_min@, t_max@),
                closest_so_far@ == scan_bound(hit_view(aux_hit_record), t_max@),
            decreases self.objects.len() - i,
        {
            proof {
                let next = self@.take(i + 1);
                assert(next.drop_last() =~= self@.take(i as int));
                assert(next.last() == self.objects@[i as int]@);
            }
            if let Some(rec) = self.objects[i].hit(r, t_min, closest_so_far) {
                closest_so_far = rec.get_t();
                aux_hit_record = Some(rec);
            }
            i = i + 1;
        }
        proof {
            assert(self@.take(i as int) =~= self@);
            lemma_list_hit_nearest(self@, r@, t_min@, t_max@);
            if let Some(h) = hit_view(aux_hit_record) {
                let k = choose|k: int| is_first_nearest(self@, r@, t_min@, t_max@, k, h);
                lemma_sphere_hit_in_window(self@[k], r@, t_min@, t_max@);
                lemma_sphere_hit_normal_opposes(self@[k], r@, t_min@, t_max@);
            }
        }
        aux_hit_record
    }
}

} // verus!
