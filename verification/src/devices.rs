//! The in-memory device registry: the devices this vault has seen, each
//! with an address, a name and its last negotiation offer. Durable storage
//! of devices is a collaborator outside this core; the registry here is the
//! verified in-memory form that the rest of the logic works against.

use vstd::prelude::*;
use crate::strutil::str_eq;

verus! {

/// One known device.
#[derive(Debug, PartialEq, Eq)]
pub struct Device {
    pub ip: String,
    pub name: String,
    pub offer: String,
}

/// Mathematical view of a [`Device`].
#[verifier::ext_equal]
pub struct DeviceView {
    pub ip: Seq<char>,
    pub name: Seq<char>,
    pub offer: Seq<char>,
}

impl View for Device {
    type V = DeviceView;

    open spec fn view(&self) -> DeviceView {
        DeviceView { ip: self.ip@, name: self.name@, offer: self.offer@ }
    }
}

impl DeepView for Device {
    type V = DeviceView;

    open spec fn deep_view(&self) -> DeviceView {
        self.view()
    }
}

impl Clone for Device {
    /// A clone carries exactly the same fields.
    fn clone(&self) -> (r: Self)
        ensures
            r == *self,
    {
        Device { ip: self.ip.clone(), name: self.name.clone(), offer: self.offer.clone() }
    }
}

/// The registry of known devices, in the order they were added.
#[derive(Debug)]
pub struct Devices {
    list: Vec<Device>,
}

impl View for Devices {
    type V = Seq<DeviceView>;

    closed spec fn view(&self) -> Seq<DeviceView> {
        self.list.deep_view()
    }
}

impl Devices {
    /// An empty registry.
    pub fn new() -> (r: Self)
        ensures
            r@ =~= Seq::<DeviceView>::empty(),
    {
        let r = Devices { list: Vec::new() };
        proof {
            assert(r@ =~= Seq::<DeviceView>::empty());
        }
        r
    }

    /// The number of known devices.
    pub fn len(&self) -> (n: usize)
        ensures
            n == self@.len(),
    {
        self.list.len()
    }

    /// Records one device at the end of the registry.
    pub fn add_device(&mut self, device: Device)
        ensures
            final(self)@ == old(self)@.push(device@),
    {
        self.list.push(device);
        proof {
            assert(self@ =~= old(self)@.push(self.list@.last()@));
        }
    }

    /// All known devices, in the order they were added.
    pub fn list_devices(&self) -> (r: Vec<Device>)
        ensures
            r.deep_view() == self@,
    {
        let mut out: Vec<Device> = Vec::new();
        let mut i: usize = 0;
        while i < self.list.len()
            invariant
                i <= self.list@.len(),
                self@.len() == self.list@.len(),
                out@.len() == i,
                forall|j: int| 0 <= j < i ==> #[trigger] out@[j]@ == self@[j],
            decreases self.list@.len() - i,
        {
            out.push(self.list[i].clone());
            i = i + 1;
        }
        proof {
            assert(out.deep_view() =~= self@);
        }
        out
    }

    /// The first device recorded under `name`, if any.
    pub fn get_device_by_name(&self, name: &str) -> (r: Option<Device>)
        ensures
            match r {
                Some(d) => exists|i: int|
                    0 <= i < self@.len() && d@ == self@[i] && self@[i].name == name@ && (forall|
                        j: int,
                    |
                        0 <= j < i ==> (#[trigger] self@[j]).name != name@),
                None => forall|i: int| 0 <= i < self@.len() ==> (#[trigger] self@[i]).name != name@,
            },
    {
        let mut i: usize = 0;
        while i < self.list.len()
            invariant
                i <= self.list@.len(),
                self@.len() == self.list@.len(),
                forall|j: int| 0 <= j < i ==> (#[trigger] self@[j]).name != name@,
            decreases self.list@.len() - i,
        {
            if str_eq(self.list[i].name.as_str(), name) {
                let d = self.list[i].clone();
                proof {
                    assert(d@ == self@[i as int]);
                }
                return Some(d);
            }
            i = i + 1;
        }
        None
    }
}

/// Exercises the registry round trip that the name lookup promises: a
/// device added under a name is found again under that name.
pub fn test_get_device_by_name() {
    let device = Device {
        ip: "192.168.1.1".to_owned(),
        name: "test".to_owned(),
        offer: "offer".to_owned(),
    };
    let ghost dv = device@;
    let mut devices = Devices::new();
    devices.add_device(device);
    proof {
        assert(devices@ =~= seq![dv]);
    }
    let retrieved = devices.get_device_by_name("test");
    match retrieved {
        Some(d) => {
            proof {
                assert(d@.name == "test"@);
            }
        },
        None => {
            proof {
                assert(devices@[0].name == "test"@);
                assert(false);
            }
        },
    }
}

/// Exercises the listing order the registry promises: devices come back in
/// the order they were added.
pub fn tests_list_devices() {
    let first_device = Device {
        ip: "".to_owned(),
        name: "first_device".to_owned(),
        offer: "Offer".to_owned(),
    };
    let second_device = Device {
        ip: "".to_owned(),
        name: "second_device".to_owned(),
        offer: "Offer".to_owned(),
    };
    let ghost v1 = first_device@;
    let ghost v2 = second_device@;
    let mut devices = Devices::new();
    devices.add_device(first_device);
    devices.add_device(second_device);
    proof {
        assert(devices@ =~= seq![v1, v2]);
    }
    let all = devices.list_devices();
    proof {
        assert(all.deep_view().len() == 2);
        assert(all.deep_view()[0].name == "first_device"@);
        assert(all.deep_view()[1].name == "second_device"@);
    }
}

} // verus!
