//! Sensors as the test loop consumes them: something that can bracket
//! one execution and hand back observations — and the sensor that maps
//! another sensor's observations through a function.

use vstd::prelude::*;

verus! {

/// Something whose artifacts can be written into a statistics folder:
/// pairs of a file name and that file's bytes.
pub trait SaveToStatsFolder {
    fn save_to_stats_folder(&self) -> Vec<(String, Vec<u8>)>;
}

/// A sensor brackets one execution of the tested function and hands
/// back what it observed. `ready` is whatever the sensor needs to hold
/// before it is used; every operation preserves it.
pub trait Sensor: SaveToStatsFolder + Sized {
    type Observations;

    spec fn ready(&self) -> bool;

    /// What `get_observations` may hand out, relating the sensor before
    /// the call, the sensor after it, and the observations.
    spec fn obs_rel(pre: Self, post: Self, r: Self::Observations) -> bool;

    fn start_recording(&mut self)
        requires
            old(self).ready(),
        ensures
            final(self).ready(),
    ;

    fn stop_recording(&mut self)
        requires
            old(self).ready(),
        ensures
            final(self).ready(),
    ;

    fn get_observations(&mut self) -> (r: Self::Observations)
        requires
            old(self).ready(),
        ensures
            final(self).ready(),
            Self::obs_rel(*old(self), *final(self), r),
    ;
}

/// The sensor obtained by mapping another sensor's observations
/// through a function.
#[verifier::reject_recursive_types(ToObservations)]
pub struct MapSensor<S, ToObservations, F> where
    S: Sensor,
    F: Fn(S::Observations) -> ToObservations,
 {
    sensor: S,
    map_f: F,
}

impl<S, ToObservations, F> MapSensor<S, ToObservations, F> where
    S: Sensor,
    F: Fn(S::Observations) -> ToObservations,
 {
    /// Wrap a sensor; the map must accept every observation the wrapped
    /// sensor can hand out.
    pub fn new(sensor: S, map_f: F) -> (r: Self)
        requires
            forall|x: S::Observations| #[trigger] map_f.requires((x,)),
        ensures
            sensor.ready() ==> r.ready(),
    {
        Self { sensor, map_f }
    }
}

impl<S, ToObservations, F> SaveToStatsFolder for MapSensor<S, ToObservations, F> where
    S: Sensor,
    F: Fn(S::Observations) -> ToObservations,
 {
    fn save_to_stats_folder(&self) -> Vec<(String, Vec<u8>)> {
        self.sensor.save_to_stats_folder()
    }
}

impl<S, ToObservations, F> Sensor for MapSensor<S, ToObservations, F> where
    S: Sensor,
    F: Fn(S::Observations) -> ToObservations,
 {
    type Observations = ToObservations;

    closed spec fn ready(&self) -> bool {
        self.sensor.ready() && forall|x: S::Observations| #[trigger] self.map_f.requires((x,))
    }

    /// The observations are the map applied to what the wrapped sensor
    /// observed.
    closed spec fn obs_rel(pre: Self, post: Self, r: ToObservations) -> bool {
        exists|x: S::Observations|
            S::obs_rel(pre.sensor, post.sensor, x) && pre.map_f.ensures((x,), r)
    }

    fn start_recording(&mut self) {
        self.sensor.start_recording();
    }

    fn stop_recording(&mut self) {
        self.sensor.stop_recording();
    }

    fn get_observations(&mut self) -> (r: Self::Observations) {
        let ghost pre = *self;
        let observations = self.sensor.get_observations();
        let ghost x = observations;
        let r = (self.map_f)(observations);
        proof {
            assert(S::obs_rel(pre.sensor, self.sensor, x) && pre.map_f.ensures((x,), r));
        }
        r
    }
}

/// A sensor that wraps another and can hand the wrapped one out.
pub trait WrapperSensor: Sensor {
    type Wrapped: Sensor;

    /// The sensor this one wraps.
    spec fn wrapped_view(&self) -> Self::Wrapped;

    fn wrapped(&self) -> (r: &Self::Wrapped)
        ensures
            *r == self.wrapped_view(),
    ;
}

impl<S, ToObservations, F> WrapperSensor for MapSensor<S, ToObservations, F> where
    S: Sensor,
    F: Fn(S::Observations) -> ToObservations,
 {
    type Wrapped = S;

    closed spec fn wrapped_view(&self) -> S {
        self.sensor
    }

    fn wrapped(&self) -> (r: &S) {
        &self.sensor
    }
}

} // verus!
