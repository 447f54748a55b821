//! Device manager subsystem
//!
//! The manager keeps, for each class of devices, the devices of that class
//! in the order in which they were installed. A device is named by its
//! class and its number within the class: `kbd0` is the first keyboard.

use vstd::prelude::*;
use vstd::string::StringSliceAdditionalSpecFns;

use crate::dev::Device;
use crate::shell::calc::ast::digits_value;

verus! {

/// The name of a device, as bytes: its class, then its number in decimal
/// digits.
pub type DeviceName = Vec<u8>;

/// Whether the byte is a decimal digit.
pub open spec fn is_digit(byte: u8) -> bool {
    48 <= byte <= 57
}

/// The decimal digits of a number, without leading zeros; one zero for
/// zero.
pub open spec fn decimal(n: nat) -> Seq<u8>
    decreases n,
{
    if n < 10 {
        seq![(48 + n) as u8]
    } else {
        decimal(n / 10).push((48 + n % 10) as u8)
    }
}

/// The name of the device with the given number of the given class.
pub open spec fn name_of(class: Seq<u8>, id: nat) -> Seq<u8> {
    class + decimal(id)
}

/// The decimal digits of a number are digits, and at least one.
pub proof fn lemma_decimal_digits(n: nat)
    ensures
        decimal(n).len() >= 1,
        forall|i: int| 0 <= i < decimal(n).len() ==> is_digit(#[trigger] decimal(n)[i]),
        digits_value(decimal(n)) == Some(n as int),
    decreases n,
{
    if n >= 10 {
        lemma_decimal_digits(n / 10);
        assert(decimal(n) == decimal(n / 10).push((48 + n % 10) as u8));
        assert(decimal(n).drop_last() =~= decimal(n / 10));
        assert(decimal(n).last() == (48 + n % 10) as u8);
    } else {
        assert(decimal(n) == seq![(48 + n) as u8]);
        assert(decimal(n).drop_last() =~= Seq::<u8>::empty());
        assert(decimal(n).last() == (48 + n) as u8);
        assert(digits_value(Seq::<u8>::empty()) == Some(0int));
    }
}

/// Writes a number in decimal digits.
pub fn write_decimal(n: usize) -> (r: Vec<u8>)
    ensures
        r@ == decimal(n as nat),
    decreases n,
{
    if n < 10 {
        let mut digits: Vec<u8> = Vec::new();
        digits.push(48 + n as u8);
        proof {
            assert(digits@ =~= decimal(n as nat));
        }
        digits
    } else {
        let mut digits = write_decimal(n / 10);
        digits.push(48 + (n % 10) as u8);
        digits
    }
}

/// Whether two sequences of bytes are the same.
pub fn bytes_eq(a: &[u8], b: &[u8]) -> (r: bool)
    ensures
        r == (a@ == b@),
{
    if a.len() != b.len() {
        return false;
    }
    let mut i: usize = 0;
    while i < a.len()
        invariant
            i <= a@.len(),
            a@.len() == b@.len(),
            forall|k: int| 0 <= k < i ==> a@[k] == b@[k],
        decreases a@.len() - i,
    {
        if a[i] != b[i] {
            return false;
        }
        i = i + 1;
    }
    proof {
        assert(a@ =~= b@);
    }
    true
}

/// Index of the first digit of the name, or the length of the name where it
/// holds no digit.
pub open spec fn class_len(name: Seq<u8>) -> int
    decreases name.len(),
{
    if name.len() == 0 || is_digit(name[0]) {
        0
    } else {
        1 + class_len(name.subrange(1, name.len() as int))
    }
}

/// The class and the number that a name is made of: the class is what comes
/// before the first digit, the number what the digits from there on stand
/// for. There is none where the name holds no digit, or where what follows
/// the first digit is no number that fits.
pub open spec fn parsed_name(name: Seq<u8>) -> Option<(Seq<u8>, usize)> {
    let split = class_len(name);
    if split >= name.len() {
        None
    } else {
        match digits_value(name.subrange(split, name.len() as int)) {
            Some(id) => if id <= usize::MAX {
                Some((name.subrange(0, split), id as usize))
            } else {
                None
            },
            None => None,
        }
    }
}

/// Splits the name of a device into its class and its number. Returns the
/// length of the class and the number.
pub fn parse_device_name(name: &[u8]) -> (r: Option<(usize, usize)>)
    ensures
        r.is_some() == parsed_name(name@).is_some(),
        r.is_some() ==> r.unwrap().0 <= name@.len() && name@.subrange(0, r.unwrap().0 as int)
            == parsed_name(name@).unwrap().0 && r.unwrap().1 == parsed_name(name@).unwrap().1,
{
    let mut split: usize = 0;
    proof {
        assert(name@.subrange(0, name@.len() as int) =~= name@);
    }
    while split < name.len() && !(48 <= name[split] && name[split] <= 57)
        invariant
            split <= name@.len(),
            class_len(name@) == split + class_len(name@.subrange(split as int, name@.len() as int)),
        decreases name@.len() - split,
    {
        proof {
            let rest = name@.subrange(split as int, name@.len() as int);
            assert(rest.subrange(1, rest.len() as int) =~= name@.subrange(
                split as int + 1,
                name@.len() as int,
            ));
        }
        split = split + 1;
    }
    proof {
        let rest = name@.subrange(split as int, name@.len() as int);
        assert(class_len(rest) == 0);
        if split == 0 {
            assert(name@.subrange(0, name@.len() as int) =~= name@);
        }
    }
    if split >= name.len() {
        return None;
    }
    let ghost digits = name@.subrange(split as int, name@.len() as int);
    let mut value: usize = 0;
    let mut i: usize = split;
    proof {
        assert(digits.subrange(0, 0) =~= Seq::<u8>::empty());
    }
    while i < name.len()
        invariant
            split <= i <= name@.len(),
            split < name@.len(),
            split == class_len(name@),
            digits == name@.subrange(split as int, name@.len() as int),
            digits_value(digits.subrange(0, i - split)) == Some(value as int),
        decreases name@.len() - i,
    {
        let byte = name[i];
        let ghost next = digits.subrange(0, i - split + 1);
        proof {
            assert(next.drop_last() =~= digits.subrange(0, i - split));
            assert(next.last() == byte);
        }
        if byte < 48 || byte > 57 {
            proof {
                lemma_no_value(digits, i - split + 1);
            }
            return None;
        }
        let digit = (byte - 48) as usize;
        if value > (usize::MAX - digit) / 10 {
            proof {
                lemma_too_large(digits, i - split + 1);
            }
            return None;
        }
        value = value * 10 + digit;
        i = i + 1;
    }
    proof {
        assert(digits.subrange(0, digits.len() as int) =~= digits);
    }
    Some((split, value))
}

/// Digits that have no value so far have none however they go on.
proof fn lemma_no_value(digits: Seq<u8>, count: int)
    requires
        0 <= count <= digits.len(),
        digits_value(digits.subrange(0, count)).is_none(),
    ensures
        digits_value(digits).is_none(),
    decreases digits.len() - count,
{
    if count < digits.len() {
        let next = digits.subrange(0, count + 1);
        assert(next.drop_last() =~= digits.subrange(0, count));
        lemma_no_value(digits, count + 1);
    } else {
        assert(digits.subrange(0, count) =~= digits);
    }
}

/// Digits whose value so far does not fit stand for a number that does not
/// fit, or for none.
proof fn lemma_too_large(digits: Seq<u8>, count: int)
    requires
        0 <= count <= digits.len(),
        digits_value(digits.subrange(0, count)).is_some(),
        digits_value(digits.subrange(0, count)).unwrap() > usize::MAX,
    ensures
        digits_value(digits).is_none() || digits_value(digits).unwrap() > usize::MAX,
    decreases digits.len() - count,
{
    if count < digits.len() {
        let next = digits.subrange(0, count + 1);
        assert(next.drop_last() =~= digits.subrange(0, count));
        if digits_value(next).is_some() {
            lemma_too_large(digits, count + 1);
        } else {
            lemma_no_value(digits, count + 1);
        }
    } else {
        assert(digits.subrange(0, count) =~= digits);
    }
}

/// Proxy for common fields of device structures.
#[derive(Debug)]
pub struct CommonDevice {
    class: &'static str,
    id: usize,
}

impl CommonDevice {
    /// The name of the device's class, as bytes.
    pub closed spec fn spec_class(&self) -> Seq<u8> {
        self.class.spec_bytes()
    }

    /// The device's number within its class.
    pub closed spec fn spec_id(&self) -> usize {
        self.id
    }

    /// The proxy for a device of the given kind that is not installed yet.
    pub fn new<D: Device>() -> (r: CommonDevice)
        ensures
            r.spec_class() == D::spec_class_name(),
            r.spec_id() == usize::MAX,
    {
        CommonDevice { class: D::class_name(), id: usize::MAX }
    }

    /// The proxy for a device of the class with the given name that is not
    /// installed yet.
    pub fn of_class(class: &'static str) -> (r: CommonDevice)
        ensures
            r.spec_class() == class.spec_bytes(),
            r.spec_id() == usize::MAX,
    {
        CommonDevice { class, id: usize::MAX }
    }

    /// Whether the device is of the class with the given name.
    pub fn is_class(&self, class: &str) -> (r: bool)
        ensures
            r == (self.spec_class() == class.spec_bytes()),
    {
        bytes_eq(self.class.as_bytes(), class.as_bytes())
    }

    pub fn class(&self) -> (r: &'static str)
        ensures
            r.spec_bytes() == self.spec_class(),
    {
        self.class
    }

    pub fn id(&self) -> (r: usize)
        ensures
            r == self.spec_id(),
    {
        self.id
    }

    /// The device's name: its class, then its number.
    pub fn name(&self) -> (r: DeviceName)
        ensures
            r@ == name_of(self.spec_class(), self.spec_id() as nat),
    {
        let class = self.class.as_bytes();
        let mut name: Vec<u8> = Vec::new();
        let mut i: usize = 0;
        while i < class.len()
            invariant
                i <= class@.len(),
                name@ == class@.subrange(0, i as int),
            decreases class@.len() - i,
        {
            name.push(class[i]);
            proof {
                assert(name@ =~= class@.subrange(0, i as int + 1));
            }
            i = i + 1;
        }
        proof {
            assert(class@.subrange(0, class@.len() as int) =~= class@);
        }
        let mut digits = write_decimal(self.id);
        name.append(&mut digits);
        name
    }
}

/// The devices of one class, in the order of their numbers.
pub struct DeviceClassEntry {
    class: &'static str,
    devices: Vec<CommonDevice>,
    last_id: usize,
}

impl DeviceClassEntry {
    /// The name of the class, as bytes.
    pub closed spec fn spec_class(&self) -> Seq<u8> {
        self.class.spec_bytes()
    }

    /// Number of devices of the class.
    pub closed spec fn count(&self) -> nat {
        self.devices@.len()
    }

    /// Every device has the class of the entry and its place as number.
    pub closed spec fn wf(&self) -> bool {
        &&& self.last_id == self.devices@.len()
        &&& forall|i: int|
            0 <= i < self.devices@.len() ==> (#[trigger] self.devices@[i]).spec_id() == i
                && self.devices@[i].spec_class() == self.spec_class()
    }

    /// The entry for a class that has no devices yet.
    pub fn new(class: &'static str) -> (r: DeviceClassEntry)
        ensures
            r.wf(),
            r.count() == 0,
            r.spec_class() == class.spec_bytes(),
    {
        DeviceClassEntry { class, devices: Vec::new(), last_id: 0 }
    }

    /// Installs the device as the next one of the class and returns its
    /// name.
    pub fn install(&mut self, device: CommonDevice) -> (r: DeviceName)
        requires
            old(self).wf(),
            old(self).count() < usize::MAX,
            device.spec_class() == old(self).spec_class(),
        ensures
            final(self).wf(),
            final(self).spec_class() == old(self).spec_class(),
            final(self).count() == old(self).count() + 1,
            r@ == name_of(old(self).spec_class(), old(self).count()),
    {
        let id = self.last_id;
        self.last_id += 1;
        let mut dev = device;
        dev.id = id;
        let dev_name = dev.name();
        self.devices.push(dev);
        dev_name
    }

    /// Number of devices of the class.
    pub fn len(&self) -> (r: usize)
        ensures
            r == self.count(),
    {
        self.devices.len()
    }

    /// The device with the given number, if there is one.
    pub fn get(&self, id: usize) -> (r: Option<&CommonDevice>)
        requires
            self.wf(),
        ensures
            r.is_some() == (id < self.count()),
            r.is_some() ==> r.unwrap().spec_id() == id && r.unwrap().spec_class()
                == self.spec_class(),
    {
        if id < self.devices.len() {
            Some(&self.devices[id])
        } else {
            None
        }
    }
}

/// Number of devices of the class with the given name among the entries.
pub open spec fn count_in(classes: Seq<DeviceClassEntry>, class: Seq<u8>) -> nat
    decreases classes.len(),
{
    if classes.len() == 0 {
        0
    } else if classes.last().spec_class() == class {
        classes.last().count()
    } else {
        count_in(classes.drop_last(), class)
    }
}

/// No class has two entries.
pub open spec fn distinct_classes(classes: Seq<DeviceClassEntry>) -> bool {
    forall|i: int, j: int|
        0 <= i < j < classes.len() ==> (#[trigger] classes[i]).spec_class() != (
        #[trigger] classes[j]).spec_class()
}

/// Where a class has an entry, its devices are those of the entry.
proof fn lemma_count_at(classes: Seq<DeviceClassEntry>, class: Seq<u8>, index: int)
    requires
        distinct_classes(classes),
        0 <= index < classes.len(),
        classes[index].spec_class() == class,
    ensures
        count_in(classes, class) == classes[index].count(),
    decreases classes.len(),
{
    if index < classes.len() - 1 {
        assert(classes.last().spec_class() != class) by {
            assert(classes[index].spec_class() != classes[classes.len() - 1].spec_class());
        }
        lemma_count_at(classes.drop_last(), class, index);
    }
}

/// A class without an entry has no devices.
proof fn lemma_count_absent(classes: Seq<DeviceClassEntry>, class: Seq<u8>)
    requires
        forall|i: int| 0 <= i < classes.len() ==> (#[trigger] classes[i]).spec_class() != class,
    ensures
        count_in(classes, class) == 0,
    decreases classes.len(),
{
    if classes.len() > 0 {
        assert forall|i: int| 0 <= i < classes.drop_last().len() implies (
        #[trigger] classes.drop_last()[i]).spec_class() != class by {
            assert(classes.drop_last()[i] == classes[i]);
        }
        lemma_count_absent(classes.drop_last(), class);
    }
}

/// The entries that differ in one entry of the same class hold the same
/// devices of every other class.
proof fn lemma_count_elsewhere(
    before: Seq<DeviceClassEntry>,
    after: Seq<DeviceClassEntry>,
    index: int,
    class: Seq<u8>,
)
    requires
        before.len() == after.len(),
        0 <= index < before.len(),
        forall|i: int| 0 <= i < before.len() && i != index ==> before[i] == after[i],
        before[index].spec_class() == after[index].spec_class(),
        before[index].spec_class() != class,
    ensures
        count_in(after, class) == count_in(before, class),
    decreases before.len(),
{
    if index < before.len() - 1 {
        assert(before.last() == after.last());
        if before.last().spec_class() != class {
            lemma_count_elsewhere(before.drop_last(), after.drop_last(), index, class);
        }
    } else {
        assert(before.drop_last() =~= after.drop_last());
    }
}

/// The devices of the machine, class by class.
pub struct DeviceManager {
    classes: Vec<DeviceClassEntry>,
}

impl DeviceManager {
    /// Every entry is in order, and no class has two entries.
    pub closed spec fn wf(&self) -> bool {
        &&& forall|i: int| 0 <= i < self.classes@.len() ==> (#[trigger] self.classes@[i]).wf()
        &&& distinct_classes(self.classes@)
    }

    /// Number of devices of the class with the given name.
    pub closed spec fn count(&self, class: Seq<u8>) -> nat {
        count_in(self.classes@, class)
    }

    /// A manager without devices.
    pub fn new() -> (r: DeviceManager)
        ensures
            r.wf(),
            forall|class: Seq<u8>| r.count(class) == 0,
    {
        DeviceManager { classes: Vec::new() }
    }

    /// The entries of the classes, in the order in which the classes got
    /// their first device.
    pub fn classes(&self) -> (r: &Vec<DeviceClassEntry>)
        ensures
            forall|class: Seq<u8>| count_in(r@, class) == self.count(class),
    {
        &self.classes
    }

    fn find(&self, class: &[u8]) -> (r: Option<usize>)
        requires
            self.wf(),
        ensures
            r.is_some()
                ==> r.unwrap() < self.classes@.len()
                    && self.classes@[r.unwrap() as int].spec_class()
                == class@ && self.count(class@) == self.classes@[r.unwrap() as int].count(),
            r.is_none() ==> self.count(class@) == 0 && forall|i: int|
                0 <= i < self.classes@.len()
                    ==> (#[trigger] self.classes@[i]).spec_class() != class@,
    {
        let mut i: usize = 0;
        while i < self.classes.len()
            invariant
                i <= self.classes@.len(),
                self.wf(),
                forall|k: int| 0 <= k < i ==> (#[trigger] self.classes@[k]).spec_class() != class@,
            decreases self.classes@.len() - i,
        {
            if bytes_eq(self.classes[i].class.as_bytes(), class) {
                proof {
                    lemma_count_at(self.classes@, class@, i as int);
                }
                return Some(i);
            }
            i = i + 1;
        }
        proof {
            lemma_count_absent(self.classes@, class@);
        }
        None
    }

    /// Registers new device and takes ownership of it. The device becomes
    /// the next one of its class; its name is returned.
    pub fn install(&mut self, device: CommonDevice) -> (r: DeviceName)
        requires
            old(self).wf(),
            old(self).count(device.spec_class()) < usize::MAX,
        ensures
            final(self).wf(),
            r@ == name_of(device.spec_class(), old(self).count(device.spec_class())),
            final(self).count(device.spec_class()) == old(self).count(device.spec_class()) + 1,
            forall|class: Seq<u8>|
                class != device.spec_class() ==> final(self).count(class) == old(self).count(class),
    {
        let ghost class = device.spec_class();
        let ghost start = self.classes@;
        let index = match self.find(device.class.as_bytes()) {
            Some(index) => index,
            None => {
                self.classes.push(DeviceClassEntry::new(device.class));
                proof {
                    assert(self.classes@.drop_last() =~= start);
                }
                self.classes.len() - 1
            },
        };
        let ghost mid = self.classes@;
        proof {
            assert(distinct_classes(mid));
            assert forall|other: Seq<u8>| count_in(mid, other) == count_in(start, other) by {
                if mid.len() > start.len() {
                    assert(mid.drop_last() =~= start);
                    if other == class {
                        lemma_count_absent(start, class);
                    }
                }
            }
            lemma_count_at(mid, class, index as int);
        }
        let mut entry = DeviceClassEntry { class: device.class, devices: Vec::new(), last_id: 0 };
        std::mem::swap(&mut entry, &mut self.classes[index]);
        let name = entry.install(device);
        std::mem::swap(&mut entry, &mut self.classes[index]);
        proof {
            let after = self.classes@;
            assert(after.len() == mid.len());
            assert forall|i: int| 0 <= i < after.len()
                && i != index implies after[i] == mid[i] by {}
            assert(distinct_classes(after)) by {
                assert forall|i: int, j: int| 0 <= i < j < after.len() implies (
                #[trigger] after[i]).spec_class() != (#[trigger] after[j]).spec_class() by {
                    assert(mid[i].spec_class() != mid[j].spec_class());
                }
            }
            lemma_count_at(after, class, index as int);
            assert forall|other: Seq<u8>| other != class implies count_in(after, other) == count_in(
                start,
                other,
            ) by {
                lemma_count_elsewhere(mid, after, index as int, other);
            }
        }
        name
    }

    /// The device with the given name, if it is installed. There is none
    /// for a name that is not made of a class and a number.
    pub fn get(&self, name: &[u8]) -> (r: Option<&CommonDevice>)
        requires
            self.wf(),
        ensures
            r.is_some() == (parsed_name(name@).is_some() && parsed_name(name@).unwrap().1
                < self.count(parsed_name(name@).unwrap().0)),
            r.is_some() ==> r.unwrap().spec_class() == parsed_name(name@).unwrap().0
                && r.unwrap().spec_id() == parsed_name(name@).unwrap().1,
    {
        let (split, id) = match parse_device_name(name) {
            Some(parts) => parts,
            None => {
                return None;
            },
        };
        let class = vstd::slice::slice_subrange(name, 0, split);
        match self.find(class) {
            Some(index) => self.classes[index].get(id),
            None => None,
        }
    }
}

/// Registers new device of the given kind and returns its name.
pub fn install<D: Device>(manager: &mut DeviceManager) -> (r: DeviceName)
    requires
        old(manager).wf(),
        old(manager).count(D::spec_class_name()) < usize::MAX,
    ensures
        final(manager).wf(),
        r@ == name_of(D::spec_class_name(), old(manager).count(D::spec_class_name())),
        final(manager).count(D::spec_class_name()) == old(manager).count(D::spec_class_name()) + 1,
        forall|other: Seq<u8>|
            other != D::spec_class_name() ==> final(manager).count(other) == old(manager).count(
                other,
            ),
{
    let device = CommonDevice::new::<D>();
    manager.install(device)
}

/// Returns the device with the given name, if it is installed.
pub fn get_device<'a>(manager: &'a DeviceManager, name: &str) -> (r: Option<&'a CommonDevice>)
    requires
        manager.wf(),
    ensures
        r.is_some() == (parsed_name(name.spec_bytes()).is_some() && parsed_name(
            name.spec_bytes(),
        ).unwrap().1 < manager.count(parsed_name(name.spec_bytes()).unwrap().0)),
        r.is_some() ==> r.unwrap().spec_class() == parsed_name(name.spec_bytes()).unwrap().0
            && r.unwrap().spec_id() == parsed_name(name.spec_bytes()).unwrap().1,
{
    manager.get(name.as_bytes())
}

/// The name of a device is made of the device's class and number: a name
/// that is put together from a class without digits and a number splits
/// into that class and that number again.
pub proof fn lemma_name_round_trip(class: Seq<u8>, id: nat)
    requires
        forall|i: int| 0 <= i < class.len() ==> !is_digit(#[trigger] class[i]),
        id <= usize::MAX,
    ensures
        parsed_name(name_of(class, id)) == Some((class, id as usize)),
{
    let name = name_of(class, id);
    lemma_decimal_digits(id);
    lemma_class_len(class, decimal(id));
    assert(name.subrange(class.len() as int, name.len() as int) =~= decimal(id));
    assert(name.subrange(0, class.len() as int) =~= class);
}

/// Bytes without digits in front of a digit are the class of the name.
proof fn lemma_class_len(class: Seq<u8>, rest: Seq<u8>)
    requires
        forall|i: int| 0 <= i < class.len() ==> !is_digit(#[trigger] class[i]),
        rest.len() > 0,
        is_digit(rest[0]),
    ensures
        class_len(class + rest) == class.len(),
    decreases class.len(),
{
    let name = class + rest;
    if class.len() > 0 {
        assert(name[0] == class[0]);
        assert(name.subrange(1, name.len() as int) =~= class.subrange(1, class.len() as int)
            + rest);
        lemma_class_len(class.subrange(1, class.len() as int), rest);
    } else {
        assert(name =~= rest);
    }
}

} // verus!
